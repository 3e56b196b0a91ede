use vstd::prelude::*;

use crate::game::Point;

verus! {

/// A direction in which the view of a toroidal board can move.
#[derive(Copy, Clone, PartialEq, Eq, Structural, Debug)]
pub enum Direction {
    Up,
    Down,
    Left,
    Right,
}

/// What a pointer over the board asks for: a point (clicked or only
/// hovered), a move of the view, a change of the wrapped edge, or nothing.
#[derive(Copy, Clone, PartialEq, Eq, Debug)]
pub enum Input {
    Place(Point, bool),
    Move(Direction, bool),
    WiderEdge,
    SmallerEdge,
    NoInput,
}

impl Input {
    /// The point the input selects, if it is a point.
    pub fn into_selection(self) -> (r: Option<Point>)
        ensures
            r == match self {
                Input::Place(p, _) => Some(p),
                _ => None::<Point>,
            },
    {
        match self {
            Input::Place(p, _) => Some(p),
            _ => None,
        }
    }
}

/// The colours the board is drawn with, one per team where there are four.
#[derive(Copy, Clone, Debug)]
pub struct Palette {
    pub shadow_stone_colors: [&'static str; 4],
    pub shadow_border_colors: [&'static str; 4],
    pub stone_colors: [&'static str; 4],
    pub stone_colors_hidden: [&'static str; 4],
    pub border_colors: [&'static str; 4],
    pub dead_mark_color: [&'static str; 4],
    pub background: &'static str,
}

/// The palettes a player can pick.
#[derive(Copy, Clone, PartialEq, Eq, Structural, Debug)]
pub enum PaletteOption {
    Normal,
    Colorblind,
}

/// The palette of `option`.
pub open spec fn palette_of(option: PaletteOption) -> Palette {
    match option {
        PaletteOption::Normal => Palette {
            shadow_stone_colors: ["#000000a0", "#eeeeeea0", "#5074bca0", "#e0658fa0"],
            shadow_border_colors: ["#bbbbbb", "#555555", "#555555", "#555555"],
            stone_colors: ["#000000", "#eeeeee", "#5074bc", "#e0658f"],
            stone_colors_hidden: ["#00000080", "#eeeeee80", "#5074bc80", "#e0658f80"],
            border_colors: ["#555555", "#000000", "#000000", "#000000"],
            dead_mark_color: ["#eeeeee", "#000000", "#000000", "#000000"],
            background: "#e0bb6c",
        },
        PaletteOption::Colorblind => Palette {
            shadow_stone_colors: ["#000000a0", "#eeeeeea0", "#56b3e9a0", "#d52e00a0"],
            shadow_border_colors: ["#bbbbbb", "#555555", "#555555", "#555555"],
            stone_colors: ["#000000", "#eeeeee", "#56b3e9", "#d52e00"],
            stone_colors_hidden: ["#00000080", "#eeeeee80", "#56b3e980", "#d52e0080"],
            border_colors: ["#555555", "#000000", "#000000", "#000000"],
            dead_mark_color: ["#eeeeee", "#000000", "#000000", "#000000"],
            background: "#e0bb6c",
        },
    }
}

impl PaletteOption {
    /// The palette of this option.
    pub fn to_palette(&self) -> (p: Palette)
        ensures
            p == palette_of(*self),
    {
        match self {
            PaletteOption::Normal => Palette {
                shadow_stone_colors: ["#000000a0", "#eeeeeea0", "#5074bca0", "#e0658fa0"],
                shadow_border_colors: ["#bbbbbb", "#555555", "#555555", "#555555"],
                stone_colors: ["#000000", "#eeeeee", "#5074bc", "#e0658f"],
                stone_colors_hidden: ["#00000080", "#eeeeee80", "#5074bc80", "#e0658f80"],
                border_colors: ["#555555", "#000000", "#000000", "#000000"],
                dead_mark_color: ["#eeeeee", "#000000", "#000000", "#000000"],
                background: "#e0bb6c",
            },
            PaletteOption::Colorblind => Palette {
                shadow_stone_colors: ["#000000a0", "#eeeeeea0", "#56b3e9a0", "#d52e00a0"],
                shadow_border_colors: ["#bbbbbb", "#555555", "#555555", "#555555"],
                stone_colors: ["#000000", "#eeeeee", "#56b3e9", "#d52e00"],
                stone_colors_hidden: ["#00000080", "#eeeeee80", "#56b3e980", "#d52e0080"],
                border_colors: ["#555555", "#000000", "#000000", "#000000"],
                dead_mark_color: ["#eeeeee", "#000000", "#000000", "#000000"],
                background: "#e0bb6c",
            },
        }
    }
}

/// Coordinates of the view and the board stay far from the `i32` limits.
pub open spec fn small(v: int) -> bool {
    -0x10_0000 <= v <= 0x10_0000
}

/// The board point that the view point `view` shows. Without toroidal go the
/// view is the board. On a toroidal board the view has an edge of `edge`
/// points repeated from the other side (the upper edge counted from one,
/// as the view draws it) and is moved by `displacement`.
pub open spec fn view_to_board(view: (u32, u32), toroidal: bool, edge: i32, size: (u8, u8), displacement: (i32, i32)) -> (int, int) {
    let s = size.0 as int;
    if !toroidal {
        (view.0 as int, view.1 as int)
    } else {
        let x0 = view.0 - edge;
        let y0 = view.1 - edge;
        let x1 = if x0 < 0 { x0 + s } else { x0 };
        let y1 = if y0 < 1 { y0 + s } else { y0 };
        let x2 = if x1 >= s { x1 - s } else { x1 };
        let y2 = if y1 >= s { y1 - s } else { y1 };
        ((x2 + displacement.0) % (size.0 as int), (y2 + displacement.1) % (size.1 as int))
    }
}

/// `a` modulo `m`, in `0..m`.
fn euclid_mod(a: i32, m: u8) -> (r: i32)
    requires
        m > 0,
        -0x40_0000 < a < 0x40_0000,
    ensures
        r as int == a as int % (m as int),
{
    let k: i32 = 0x40_0000;
    let shifted = (a + (m as i32) * k) as u32;
    proof {
        vstd::arithmetic::div_mod::lemma_mod_multiples_vanish(k as int, a as int, m as int);
        assert(shifted as int == (m as int) * (k as int) + a as int);
    }
    (shifted % (m as u32)) as i32
}

/// The board point that the view point `view` shows: see `view_to_board`.
pub fn view_to_board_coord(view: (u32, u32), toroidal: bool, edge: i32, size: (u8, u8), displacement: (i32, i32)) -> (r: (i32, i32))
    requires
        view.0 <= 0x10_0000,
        view.1 <= 0x10_0000,
        small(edge as int),
        small(displacement.0 as int),
        small(displacement.1 as int),
        toroidal ==> size.0 > 0 && size.1 > 0,
    ensures
        (r.0 as int, r.1 as int) == view_to_board(view, toroidal, edge, size, displacement),
{
    let s = size.0 as i32;
    let mut x = view.0 as i32;
    let mut y = view.1 as i32;
    if !toroidal {
        return (x, y);
    }
    x = x - edge;
    y = y - edge;
    if x < 0 {
        x = x + s;
    }
    if y < 1 {
        y = y + s;
    }
    if x >= s {
        x = x - s;
    }
    if y >= s {
        y = y - s;
    }
    let rx = euclid_mod(x + displacement.0, size.0);
    let ry = euclid_mod(y + displacement.1, size.1);
    (rx, ry)
}

/// `seq![p]` when `c` holds, nothing otherwise.
pub open spec fn when(c: bool, p: (int, int)) -> Seq<(int, int)> {
    if c {
        seq![p]
    } else {
        Seq::empty()
    }
}

/// The view points that show the board point `board`, in drawing order: on
/// a toroidal board, points near an edge show again past the other edge
/// (and near a corner, past the opposite corner). Without toroidal go a
/// point off the board shows nowhere.
pub open spec fn board_to_view(board: (i32, i32), toroidal: bool, edge: i32, size: (u8, u8), displacement: (i32, i32)) -> Seq<(int, int)> {
    let s = size.0 as int;
    let e = edge as int;
    if !toroidal && (board.0 < 0 || board.1 < 0 || board.0 >= s || board.1 >= s) {
        Seq::empty()
    } else {
        let x = (board.0 - displacement.0) % (size.0 as int);
        let y = (board.1 - displacement.1) % (size.1 as int);
        seq![(x + e, y + e)] + (if x < e {
            seq![(x + s + e, y + e)] + when(y < e, (x + s + e, y + s + e)) + when(y >= s - e, (x + s + e, y - s + e))
        } else {
            Seq::empty()
        }) + when(y < e, (x + e, y + s + e)) + (if x >= s - e {
            seq![(x - s + e, y + e)] + when(y < e, (x - s + e, y + s + e)) + when(y >= s - e, (x - s + e, y - s + e))
        } else {
            Seq::empty()
        }) + when(y >= s - e, (x + e, y - s + e))
    }
}

/// The view points that show the board point `board`: see `board_to_view`.
pub fn board_to_view_coord(board: (i32, i32), toroidal: bool, edge: i32, size: (u8, u8), displacement: (i32, i32)) -> (r: Vec<(i32, i32)>)
    requires
        small(board.0 as int),
        small(board.1 as int),
        small(edge as int),
        small(displacement.0 as int),
        small(displacement.1 as int),
        size.0 > 0,
        size.1 > 0,
    ensures
        r@.len() == board_to_view(board, toroidal, edge, size, displacement).len(),
        forall|i: int|
            0 <= i < r@.len() ==> (r@[i].0 as int, r@[i].1 as int) == #[trigger] board_to_view(board, toroidal, edge, size, displacement)[i],
{
    let ghost spec_pts = board_to_view(board, toroidal, edge, size, displacement);
    let s = size.0 as i32;
    let mut out: Vec<(i32, i32)> = Vec::new();
    if !toroidal && (board.0 < 0 || board.1 < 0 || board.0 >= s || board.1 >= s) {
        return out;
    }
    let x = euclid_mod(board.0 - displacement.0, size.0);
    let y = euclid_mod(board.1 - displacement.1, size.1);
    let ghost mut pts: Seq<(int, int)> = Seq::empty();
    out.push((x + edge, y + edge));
    proof {
        pts = pts.push(((x + edge) as int, (y + edge) as int));
    }
    if x < edge {
        out.push((x + s + edge, y + edge));
        proof {
            pts = pts.push(((x + s + edge) as int, (y + edge) as int));
        }
        if y < edge {
            out.push((x + s + edge, y + s + edge));
            proof {
                pts = pts.push(((x + s + edge) as int, (y + s + edge) as int));
            }
        }
        if y >= s - edge {
            out.push((x + s + edge, y - s + edge));
            proof {
                pts = pts.push(((x + s + edge) as int, (y - s + edge) as int));
            }
        }
    }
    if y < edge {
        out.push((x + edge, y + s + edge));
        proof {
            pts = pts.push(((x + edge) as int, (y + s + edge) as int));
        }
    }
    if x >= s - edge {
        out.push((x - s + edge, y + edge));
        proof {
            pts = pts.push(((x - s + edge) as int, (y + edge) as int));
        }
        if y < edge {
            out.push((x - s + edge, y + s + edge));
            proof {
                pts = pts.push(((x - s + edge) as int, (y + s + edge) as int));
            }
        }
        if y >= s - edge {
            out.push((x - s + edge, y - s + edge));
            proof {
                pts = pts.push(((x - s + edge) as int, (y - s + edge) as int));
            }
        }
    }
    if y >= s - edge {
        out.push((x + edge, y - s + edge));
        proof {
            pts = pts.push(((x + edge) as int, (y - s + edge) as int));
        }
    }
    proof {
        assert(pts =~= spec_pts);
    }
    out
}

/// The width of the sidebar, in pixels.
pub const SIDEBAR_SIZE: i32 = 300;

/// How the page is laid out: on a desktop the board sits beside sidebars,
/// small when only one of them fits; a narrow window is laid out as on a
/// phone.
#[derive(Copy, Clone, PartialEq, Eq, Structural, Debug)]
pub enum DisplayMode {
    Desktop(bool),
    Mobile,
}

impl DisplayMode {
    /// The style class of the layout.
    pub fn class(self) -> (s: &'static str)
        ensures
            self == DisplayMode::Desktop(true) ==> s@ == "desktop small"@,
            self == DisplayMode::Desktop(false) ==> s@ == "desktop large"@,
            self == DisplayMode::Mobile ==> s@ == "mobile"@,
    {
        match self {
            DisplayMode::Desktop(true) => "desktop small",
            DisplayMode::Desktop(false) => "desktop large",
            DisplayMode::Mobile => "mobile",
        }
    }

    /// The layout is that of a phone.
    pub fn is_mobile(self) -> (b: bool)
        ensures
            b == (self is Mobile),
    {
        match self {
            DisplayMode::Mobile => true,
            _ => false,
        }
    }
}

/// The layout for a window of `width` by `height` pixels: mobile unless a
/// sidebar fits beside a square board, small desktop unless two do.
pub fn display_mode_for(width: i32, height: i32) -> (m: DisplayMode)
    requires
        height + 2 * SIDEBAR_SIZE <= i32::MAX,
    ensures
        m == if width < height + SIDEBAR_SIZE {
            DisplayMode::Mobile
        } else if width < height + 2 * SIDEBAR_SIZE {
            DisplayMode::Desktop(true)
        } else {
            DisplayMode::Desktop(false)
        },
{
    let sidebar_size = SIDEBAR_SIZE;
    if width < height + sidebar_size {
        DisplayMode::Mobile
    } else if width < height + sidebar_size * 2 {
        DisplayMode::Desktop(true)
    } else {
        DisplayMode::Desktop(false)
    }
}

/// The game setups offered when a game is created.
#[derive(Copy, Clone, PartialEq, Eq, Structural, Debug)]
pub enum Preset {
    Standard,
    Rengo,
    ThreeColor,
    FourColor,
    ThreeColorRengo,
}

impl Preset {
    /// The display name of the setup.
    pub fn name(self) -> (s: &'static str)
        ensures
            self == Preset::Standard ==> s@ == "Standard"@,
            self == Preset::Rengo ==> s@ == "Rengo"@,
            self == Preset::ThreeColor ==> s@ == "Three Color Go"@,
            self == Preset::FourColor ==> s@ == "Four Color Go"@,
            self == Preset::ThreeColorRengo ==> s@ == "Three Color Rengo"@,
    {
        match self {
            Preset::Standard => "Standard",
            Preset::Rengo => "Rengo",
            Preset::ThreeColor => "Three Color Go",
            Preset::FourColor => "Four Color Go",
            Preset::ThreeColorRengo => "Three Color Rengo",
        }
    }
}

} // verus!
