//! The window and its place in the system tray.
use tray_icon::{BadIcon, Icon};
use vstd::prelude::*;

verus! {

/// Whether the window is hidden, and whether the user wants the program to end.
#[derive(Clone, Copy, Debug, PartialEq, Eq, Structural)]
pub struct Window {
    pub hidden: bool,
    pub exit_requested: bool,
}

/// What happens to the symbol in the system tray.
#[derive(Clone, Copy, Debug, PartialEq, Eq, Structural)]
pub enum TrayClick {
    Left,
    Double,
    Other,
}

/// What the window is told when it is asked to close.
#[derive(Clone, Copy, Debug, PartialEq, Eq, Structural)]
pub enum CloseAnswer {
    /// It closes, and nothing more is drawn.
    Close,
    /// It stays open, out of sight.
    Hide,
}

impl Window {
    /// The window at the start.
    pub fn new(hidden: bool) -> (window: Self)
        ensures
            window == (Window { hidden, exit_requested: false }),
    {
        Window { hidden, exit_requested: false }
    }

    /// Shows or hides the window.
    pub fn set_visible(&mut self, visible: bool)
        ensures
            *final(self) == (Window { hidden: !visible, ..*old(self) }),
    {
        self.hidden = !visible;
    }

    /// A click on the symbol in the tray: shows a hidden window and hides a shown one. The result
    /// is whether the window is to be visible, where that changes.
    pub fn tray_clicked(&mut self, click: TrayClick) -> (visible: Option<bool>)
        ensures
            click == TrayClick::Other ==> visible is None && *final(self) == *old(self),
            click != TrayClick::Other ==> visible == Some(old(self).hidden) && *final(self) == (
            Window { hidden: !old(self).hidden, ..*old(self) }),
    {
        match click {
            TrayClick::Left | TrayClick::Double => {
                let visible = self.hidden;
                self.set_visible(visible);
                Some(visible)
            },
            TrayClick::Other => None,
        }
    }

    /// A choice in the menu of the symbol: the program ends where it is the one to exit. The result
    /// is whether the window is to be closed.
    pub fn menu_chosen(&mut self, is_exit: bool) -> (close: bool)
        ensures
            close == is_exit,
            *final(self) == (Window {
                exit_requested: old(self).exit_requested || is_exit,
                ..*old(self)
            }),
    {
        if is_exit {
            self.exit_requested = true;
        }
        is_exit
    }

    /// The window is asked to close: it does where the user wants the program to end, and else goes
    /// to the tray.
    pub fn close_requested(&mut self) -> (answer: CloseAnswer)
        ensures
            answer == (if old(self).exit_requested {
                CloseAnswer::Close
            } else {
                CloseAnswer::Hide
            }),
            *final(self) == (Window {
                hidden: old(self).hidden || !old(self).exit_requested,
                ..*old(self)
            }),
    {
        if self.exit_requested {
            return CloseAnswer::Close;
        }
        self.set_visible(false);
        CloseAnswer::Hide
    }
}

/// Two clicks on the symbol leave the window as it was.
pub proof fn law_two_clicks(before: Window, between: Window, after: Window)
    requires
        between == (Window { hidden: !before.hidden, ..before }),
        after == (Window { hidden: !between.hidden, ..between }),
    ensures
        after == before,
{
}

// ---------------------------------------------------------------------------
// The symbol

/// The width and the height of the symbol.
pub const ICON_SIZE: usize = 32;

/// The square of the distance from the middle of the symbol.
pub open spec fn distance_squared(x: int, y: int) -> int {
    (x - 16) * (x - 16) + (y - 16) * (y - 16)
}

/// The colour of a point of the symbol: a green disc with a radius of 11.5 inside a light ring
/// with a radius of 14, on nothing.
pub open spec fn icon_colour(x: int, y: int) -> Seq<u8> {
    let d = distance_squared(x, y);
    if 4 * d <= 23 * 23 {
        seq![56u8, 185, 129, 255]
    } else if d <= 14 * 14 {
        seq![230u8, 236, 240, 200]
    } else {
        seq![0u8, 0, 0, 0]
    }
}

/// The colours of the symbol, line by line, four bytes for each point.
pub open spec fn icon_bytes() -> Seq<u8> {
    Seq::new(4096, |i: int| icon_colour((i / 4) % 32, i / 128)[i % 4])
}

/// The colours of the symbol.
pub fn tray_icon_rgba() -> (rgba: Vec<u8>)
    ensures
        rgba@ == icon_bytes(),
{
    let mut rgba: Vec<u8> = Vec::new();
    for y in 0..ICON_SIZE
        invariant
            rgba@.len() == 128 * y,
            forall|i: int| 0 <= i < 128 * y ==> rgba@[i] == icon_bytes()[i],
    {
        for x in 0..ICON_SIZE
            invariant
                y < 32,
                rgba@.len() == 128 * y + 4 * x,
                forall|i: int| 0 <= i < 128 * y + 4 * x ==> rgba@[i] == icon_bytes()[i],
        {
            let dx: i32 = x as i32 - 16;
            let dy: i32 = y as i32 - 16;
            assert(0 <= dx * dx <= 256 && 0 <= dy * dy <= 256) by (nonlinear_arith)
                requires
                    -16 <= dx <= 16,
                    -16 <= dy <= 16,
            ;
            let d: i32 = dx * dx + dy * dy;
            let (r, g, b, a): (u8, u8, u8, u8) = if 4 * d <= 529 {
                (56, 185, 129, 255)
            } else if d <= 196 {
                (230, 236, 240, 200)
            } else {
                (0, 0, 0, 0)
            };
            rgba.push(r);
            rgba.push(g);
            rgba.push(b);
            rgba.push(a);
            assert forall|i: int| 128 * y + 4 * x <= i < 128 * y + 4 * x + 4 implies rgba@[i]
                == icon_bytes()[i] by {
                assert(i / 128 == y);
                assert((i / 4) % 32 == x);
            }
        }
    }
    assert(rgba@ =~= icon_bytes());
    rgba
}

/// The colours of a plain green symbol.
pub open spec fn plain_bytes() -> Seq<u8> {
    Seq::new(4096, |i: int| seq![60u8, 179, 113, 255][i % 4])
}

/// The colours of a plain green symbol, for want of the other one.
pub fn fallback_icon_rgba() -> (rgba: Vec<u8>)
    ensures
        rgba@ == plain_bytes(),
{
    let mut rgba: Vec<u8> = Vec::new();
    for n in 0..1024usize
        invariant
            rgba@.len() == 4 * n,
            forall|i: int| 0 <= i < 4 * n ==> rgba@[i] == seq![60u8, 179, 113, 255][i % 4],
    {
        rgba.push(60);
        rgba.push(179);
        rgba.push(113);
        rgba.push(255);
    }
    assert(rgba@ =~= plain_bytes());
    rgba
}

/// [`tray_icon::Icon`]: a picture in the form that the system wants. What it holds is known by
/// [`icon_points`] and [`icon_size`].
#[verifier::external_type_specification]
#[verifier::external_body]
pub struct ExIcon(tray_icon::Icon);

/// The points that a symbol holds, line by line: four bytes for each, red, green, blue and
/// opacity.
pub uninterp spec fn icon_points(icon: Icon) -> Seq<u8>;

/// The width and the height with which a symbol was made.
pub uninterp spec fn icon_size(icon: Icon) -> (u32, u32);

/// Why there is no symbol, with what the failure says of itself.
#[derive(Debug)]
pub enum IconError {
    /// The bytes make up no whole number of points.
    ByteCount(String),
    /// There are not as many points as the width and the height ask for.
    PointCount(String),
    /// The system could not make one.
    System(String),
}

/// [`tray_icon::Icon::from_rgba`]: the symbol with the given points and of the given size. It
/// fails where the bytes make up no whole number of points, where these are not as many as the
/// width and the height ask for, and where the system fails. Whether the system fails is left
/// open, and so is how a failure is worded.
#[verifier::external_body]
fn icon_from_rgba(rgba: Vec<u8>, width: u32, height: u32) -> (icon: Result<Icon, IconError>)
    requires
        width * height <= u32::MAX,
    ensures
        (icon is Err && icon->Err_0 is ByteCount) <==> rgba@.len() % 4 != 0,
        (icon is Err && icon->Err_0 is PointCount) <==> (rgba@.len() % 4 == 0
            && rgba@.len() != 4 * width * height),
        icon is Ok ==> icon_points(icon->Ok_0) == rgba@,
        icon is Ok ==> icon_size(icon->Ok_0) == (width, height),
{
    Icon::from_rgba(rgba, width, height).map_err(|error| match error {
        BadIcon::ByteCountNotDivisibleBy4 { .. } => IconError::ByteCount(error.to_string()),
        BadIcon::DimensionsVsPixelCount { .. } => IconError::PointCount(error.to_string()),
        BadIcon::OsError(_) => IconError::System(error.to_string()),
    })
}

/// The symbol: the disc in its ring, unless the system fails to make it.
pub fn make_tray_icon() -> (icon: Result<Icon, IconError>)
    ensures
        icon matches Ok(made) ==> icon_points(made) == icon_bytes() && icon_size(made) == (
            32u32,
            32u32,
        ),
        icon matches Err(error) ==> error is System,
{
    icon_from_rgba(tray_icon_rgba(), 32, 32)
}

/// The plain symbol, unless the system fails to make it.
pub fn fallback_tray_icon() -> (icon: Result<Icon, IconError>)
    ensures
        icon matches Ok(made) ==> icon_points(made) == plain_bytes() && icon_size(made) == (
            32u32,
            32u32,
        ),
        icon matches Err(error) ==> error is System,
{
    icon_from_rgba(fallback_icon_rgba(), 32, 32)
}

/// The symbol is round: points at the same distance from its middle have the same colour; it is
/// drawn where the distance is at most 14, and there only; and its inside, up to 11.5, is green.
pub proof fn law_symbol_is_round(x: int, y: int, i: int)
    ensures
        icon_colour(x, y) == icon_colour(y, x),
        icon_colour(x, y) == icon_colour(32 - x, y),
        icon_colour(x, y) == icon_colour(x, 32 - y),
        icon_colour(x, y).len() == 4,
        icon_colour(x, y)[3] > 0 <==> (x - 16) * (x - 16) + (y - 16) * (y - 16) <= 196,
        icon_colour(x, y)[3] == 255 <==> 4 * ((x - 16) * (x - 16) + (y - 16) * (y - 16)) <= 529,
        icon_colour(x, y)[3] == 255 ==> icon_colour(x, y) == seq![56u8, 185, 129, 255],
        icon_colour(x, y)[3] == 0 ==> icon_colour(x, y) == seq![0u8, 0, 0, 0],
        0 < icon_colour(x, y)[3] < 255 ==> icon_colour(x, y) == seq![230u8, 236, 240, 200],
        0 <= x < 32 && 0 <= y < 32 && 0 <= i < 4 ==> icon_bytes()[128 * y + 4 * x + i] == icon_colour(
            x,
            y,
        )[i],
        icon_bytes().len() == 4096,
        plain_bytes().len() == 4096,
        0 <= i < 1024 ==> plain_bytes().subrange(4 * i, 4 * i + 4) == seq![60u8, 179, 113, 255],
{
    assert((16 - x) * (16 - x) == (x - 16) * (x - 16)) by (nonlinear_arith);
    assert((16 - y) * (16 - y) == (y - 16) * (y - 16)) by (nonlinear_arith);
    assert((32 - x) - 16 == 16 - x && (32 - y) - 16 == 16 - y);
    let d = distance_squared(x, y);
    assert(d >= 0) by (nonlinear_arith)
        requires
            d == (x - 16) * (x - 16) + (y - 16) * (y - 16),
    ;
    if 0 <= x < 32 && 0 <= y < 32 && 0 <= i < 4 {
        let at = 128 * y + 4 * x + i;
        assert(at / 4 == 32 * y + x && (32 * y + x) % 32 == x && at / 128 == y && at % 4 == i);
    }
    if 0 <= i < 1024 {
        assert(plain_bytes().subrange(4 * i, 4 * i + 4) =~= seq![60u8, 179, 113, 255]);
    }
}

} // verus!
