//! The tablet app's chrome: the left toolbar (pen, eraser, undo, redo,
//! clear), the eraser options flyout, the status strip, and the stroke
//! history the toolbar edits.

use vstd::prelude::*;
use crate::layer_mapper::str_eq;
use vstd::string::StringSliceAdditionalSpecFns;
use crate::render::{
    in_outline, in_rect, offset, on_screen, same_frame, text_covers, text_fits, Fb, BLACK, GRAY, H, W, WHITE,
};

verus! {

/// Width of the left toolbar.
pub const SIDEBAR_W: i32 = 110;
/// Height of the status strip along the top of the canvas.
pub const STATUS_H: i32 = 64;
/// Left edge of the toolbar's icon boxes.
pub const ICON_X: i32 = 13;
/// Width of an icon box.
pub const ICON_W: i32 = 84;
/// Height of an icon box.
pub const ICON_H: i32 = 80;
/// Gap between two icon boxes.
pub const ICON_GAP: i32 = 12;
/// Left edge of the eraser options flyout.
pub const EMENU_X: i32 = 116;
/// Width of an eraser option box.
pub const EMENU_W: i32 = 64;
/// Height of an eraser option box.
pub const EMENU_H: i32 = 56;

/// Top edge of toolbar slot `slot`.
pub open spec fn icon_top(slot: int) -> int {
    15 + slot * (ICON_H + ICON_GAP)
}

/// The toolbar slot, 0 to 4, whose icon box spans row `y`, if any.
pub open spec fn slot_at(y: int) -> Option<int> {
    let rel = y - 15;
    if rel >= 0 && rel / (ICON_H + ICON_GAP) <= 4 && rel % (ICON_H + ICON_GAP) < ICON_H {
        Some(rel / (ICON_H + ICON_GAP))
    } else {
        None
    }
}

/// Top edge of toolbar slot `slot`.
pub fn icon_y(slot: i32) -> (y: i32)
    requires
        i32::MIN <= icon_top(slot as int) <= i32::MAX,
    ensures
        y == icon_top(slot as int),
{
    15 + slot * (ICON_H + ICON_GAP)
}

/// Which toolbar slot a sidebar tap at row `y` lands in (None for a gap or
/// below the toolbar).
pub fn icon_slot(y: i32) -> (slot: Option<i32>)
    requires
        y >= i32::MIN + 15,
    ensures
        slot matches Some(s) ==> slot_at(y as int) == Some(s as int),
        slot is None ==> slot_at(y as int) is None,
{
    let rel = y - 15;
    if rel < 0 {
        return None;
    }
    let slot = rel / (ICON_H + ICON_GAP);
    if slot <= 4 && rel % (ICON_H + ICON_GAP) < ICON_H {
        Some(slot)
    } else {
        None
    }
}

/// A tap lands in the icon box of slot `slot` exactly when it lies between
/// the box's top edge and the box's height below it.
pub proof fn lemma_slot_at_icon(slot: int, y: int)
    requires
        0 <= slot <= 4,
    ensures
        (icon_top(slot) <= y < icon_top(slot) + ICON_H) == (slot_at(y) == Some(slot)),
{
    let rel = y - 15;
    if icon_top(slot) <= y < icon_top(slot) + ICON_H {
        vstd::arithmetic::div_mod::lemma_fundamental_div_mod_converse(rel, 92, slot, rel - slot * 92);
    }
    if slot_at(y) == Some(slot) {
        vstd::arithmetic::div_mod::lemma_fundamental_div_mod(rel, 92);
    }
}

/// Pixel (`px`, `py`) lies in the icon box of slot `slot`.
pub open spec fn in_icon_box(px: int, py: int, slot: int) -> bool {
    in_rect(px, py, ICON_X as int, icon_top(slot), ICON_W as int, ICON_H as int)
}

/// Draws the icon box of slot `slot`: filled black for the active tool,
/// outlined otherwise. Returns the colour the icon's glyph is drawn in.
pub fn icon_frame(fb: &mut Fb, slot: i32, active: bool) -> (fg: u16)
    requires
        old(fb).wf(),
        i32::MIN <= icon_top(slot as int),
        icon_top(slot as int) + ICON_H <= i32::MAX,
    ensures
        final(fb).wf(),
        same_frame(old(fb).px@, final(fb).px@),
        fg == if active { WHITE } else { BLACK },
        forall|px: int, py: int|
            on_screen(px, py) ==> #[trigger] final(fb).px@[offset(px, py)] == if active && in_icon_box(px, py, slot as int) {
                BLACK
            } else if !active && in_outline(px, py, ICON_X as int, icon_top(slot as int), ICON_W as int, ICON_H as int, 3) {
                BLACK
            } else {
                old(fb).px@[offset(px, py)]
            },
{
    let y = icon_y(slot);
    if active {
        fb.fill_rect(ICON_X, y, ICON_W, ICON_H, BLACK);
        WHITE
    } else {
        fb.rect_outline(ICON_X, y, ICON_W, ICON_H, 3, BLACK);
        BLACK
    }
}

/// Top edge of eraser option `opt`.
pub open spec fn emenu_top(opt: int) -> int {
    icon_top(1) + opt * (EMENU_H + 8)
}

/// Top edge of eraser option `opt`.
pub fn emenu_y(opt: i32) -> (y: i32)
    requires
        i32::MIN <= opt * (EMENU_H + 8),
        i32::MIN <= emenu_top(opt as int) <= i32::MAX,
    ensures
        y == emenu_top(opt as int),
{
    let top = icon_y(1);
    assert(top == 107);
    assert(emenu_top(opt as int) == 107 + opt * 64);
    let step = opt * (EMENU_H + 8);
    top + step
}

/// The eraser option under a tap at (`x`, `y`): within the flyout's column
/// and between the top of the first option and the bottom of the last, the
/// option whose band (box and the gap under it) holds `y`.
pub open spec fn emenu_option_at(x: int, y: int) -> Option<int> {
    if EMENU_X <= x < EMENU_X + EMENU_W && emenu_top(0) <= y < emenu_top(3) + EMENU_H {
        Some((y - emenu_top(0)) / (EMENU_H + 8))
    } else {
        None
    }
}

/// The eraser option a tap at (`x`, `y`) selects, if any.
pub fn eraser_menu_option(x: i32, y: i32) -> (opt: Option<i32>)
    ensures
        opt matches Some(o) ==> emenu_option_at(x as int, y as int) == Some(o as int) && 0 <= o <= 3,
        opt is None ==> emenu_option_at(x as int, y as int) is None,
{
    if EMENU_X <= x && x < EMENU_X + EMENU_W && y >= emenu_y(0) && y < emenu_y(3) + EMENU_H {
        Some((y - emenu_y(0)) / (EMENU_H + 8))
    } else {
        None
    }
}

/// Option `opt` of the eraser flyout is highlighted: the selection loop
/// when it is on, else the chosen scrub size.
pub open spec fn emenu_active(opt: int, size_idx: int, select_mode: bool) -> bool {
    if opt == 3 {
        select_mode
    } else {
        !select_mode && opt == size_idx
    }
}

/// The label of eraser option `opt`.
pub open spec fn emenu_label(opt: int) -> Seq<char> {
    if opt == 0 {
        seq!['S']
    } else if opt == 1 {
        seq!['M']
    } else if opt == 2 {
        seq!['L']
    } else {
        seq!['S', 'E', 'L']
    }
}

/// Glyph scale of eraser option `opt`.
pub open spec fn emenu_scale(opt: int) -> int {
    if opt == 3 {
        2
    } else {
        3
    }
}

/// Left edge of the label of eraser option `opt`, centred in its box.
pub open spec fn emenu_label_x(opt: int) -> int {
    EMENU_X + (EMENU_W - emenu_label(opt).len() * 8 * emenu_scale(opt)) / 2
}

/// Pixel (`px`, `py`) lies in the box of eraser option `opt`.
pub open spec fn in_emenu_box(px: int, py: int, opt: int) -> bool {
    in_rect(px, py, EMENU_X as int, emenu_top(opt), EMENU_W as int, EMENU_H as int)
}

/// The eraser flyout as drawn: in the box of option `opt`, its label in
/// the foreground colour over a black box when highlighted, or over a white
/// box with a black outline; the rest of the screen as it was.
pub open spec fn emenu_pixel(before: Seq<u16>, size_idx: int, select_mode: bool, px: int, py: int) -> u16 {
    if exists|opt: int| 0 <= opt < 4 && #[trigger] in_emenu_box(px, py, opt) {
        let opt = choose|opt: int| 0 <= opt < 4 && #[trigger] in_emenu_box(px, py, opt);
        let active = emenu_active(opt, size_idx, select_mode);
        if text_covers(emenu_label(opt), emenu_label_x(opt), emenu_top(opt) + 16, emenu_scale(opt), px, py) {
            if active {
                WHITE
            } else {
                BLACK
            }
        } else if active {
            BLACK
        } else if in_outline(px, py, EMENU_X as int, emenu_top(opt), EMENU_W as int, EMENU_H as int, 2) {
            BLACK
        } else {
            WHITE
        }
    } else {
        before[offset(px, py)]
    }
}

/// The label of eraser option `opt`.
fn emenu_label_str(opt: usize) -> (label: &'static str)
    requires
        opt < 4,
    ensures
        label@ == emenu_label(opt as int),
        label.spec_bytes().len() == emenu_label(opt as int).len(),
{
    broadcast use vstd::string::group_string_axioms;
    if opt == 0 {
        proof {
            reveal_strlit("S");
            assert(vstd::string::is_ascii("S"));
            assert("S"@ =~= seq!['S']);
        }
        "S"
    } else if opt == 1 {
        proof {
            reveal_strlit("M");
            assert(vstd::string::is_ascii("M"));
            assert("M"@ =~= seq!['M']);
        }
        "M"
    } else if opt == 2 {
        proof {
            reveal_strlit("L");
            assert(vstd::string::is_ascii("L"));
            assert("L"@ =~= seq!['L']);
        }
        "L"
    } else {
        proof {
            reveal_strlit("SEL");
            assert(vstd::string::is_ascii("SEL"));
            assert("SEL"@ =~= seq!['S', 'E', 'L']);
        }
        "SEL"
    }
}

/// Glyphs of text at (`x`, `y`) lie within its `8 * scale` high box of
/// `len` glyphs.
proof fn lemma_text_covers_inside(chars: Seq<char>, x: int, y: int, scale: int, px: int, py: int)
    requires
        scale >= 0,
        text_covers(chars, x, y, scale, px, py),
    ensures
        x <= px < x + 8 * scale * chars.len(),
        y <= py < y + 8 * scale,
{
    let (k, row, col) = choose|k: int, row: int, col: int|
        0 <= k < chars.len() && #[trigger] crate::font::glyph_pixel(crate::font::glyph_of(chars[k]), row, col) && in_rect(
            px,
            py,
            x + k * 8 * scale + col * scale,
            y + row * scale,
            scale,
            scale,
        );
    assert(k * 8 * scale + col * scale >= 0 && k * 8 * scale + col * scale + scale <= 8 * scale * chars.len()
        && row * scale >= 0 && row * scale + scale <= 8 * scale) by (nonlinear_arith)
        requires
            0 <= k < chars.len(),
            0 <= col < 8,
            0 <= row < 8,
            scale >= 0,
    {
        assert(k * 8 * scale + col * scale + scale <= (k + 1) * 8 * scale);
        assert((k + 1) * 8 * scale <= chars.len() * 8 * scale);
        assert(row * scale + scale <= 8 * scale);
    }
}

/// The boxes of the eraser options do not overlap.
proof fn lemma_emenu_boxes_apart(px: int, py: int, a: int, b: int)
    requires
        0 <= a < 4,
        0 <= b < 4,
        in_emenu_box(px, py, a),
        in_emenu_box(px, py, b),
    ensures
        a == b,
{
}

/// Draws the eraser options flyout: three scrub sizes and the
/// selection-loop mode, the chosen one highlighted.
pub fn draw_eraser_menu(fb: &mut Fb, size_idx: usize, select_mode: bool)
    requires
        old(fb).wf(),
    ensures
        final(fb).wf(),
        same_frame(old(fb).px@, final(fb).px@),
        forall|px: int, py: int|
            on_screen(px, py) ==> #[trigger] final(fb).px@[offset(px, py)] == emenu_pixel(
                old(fb).px@,
                size_idx as int,
                select_mode,
                px,
                py,
            ),
{
    let ghost p0 = fb.px@;
    let mut opt: usize = 0;
    while opt < 4
        invariant
            fb.wf(),
            opt <= 4,
            same_frame(p0, fb.px@),
            forall|px: int, py: int|
                on_screen(px, py) ==> #[trigger] fb.px@[offset(px, py)] == if exists|o: int| 0 <= o < opt && #[trigger] in_emenu_box(px, py, o) {
                    emenu_pixel(p0, size_idx as int, select_mode, px, py)
                } else {
                    p0[offset(px, py)]
                },
        decreases 4 - opt,
    {
        let label = emenu_label_str(opt);
        let y = emenu_y(opt as i32);
        let active = if opt == 3 { select_mode } else { !select_mode && opt == size_idx };
        let ghost pa = fb.px@;
        let fg = if active {
            fb.fill_rect(EMENU_X, y, EMENU_W, EMENU_H, BLACK);
            WHITE
        } else {
            fb.fill_rect(EMENU_X, y, EMENU_W, EMENU_H, WHITE);
            fb.rect_outline(EMENU_X, y, EMENU_W, EMENU_H, 2, BLACK);
            BLACK
        };
        let ghost pb = fb.px@;
        let scale: i32 = if opt == 3 { 2 } else { 3 };
        let tx = EMENU_X + (EMENU_W - label.len() as i32 * 8 * scale) / 2;
        proof {
            assert(107 <= y <= 299);
            let n = label@.len() as int;
            let sc = scale as int;
            assert(1 <= n <= 3 && 2 <= sc <= 3);
            assert(0 <= 8 * sc * n <= 72) by (nonlinear_arith)
                requires
                    1 <= n <= 3,
                    2 <= sc <= 3,
            ;
            assert(-100 <= tx <= 200);
            assert(text_fits(tx as int, y + 16, sc, n));
        }
        fb.text(tx, y + 16, label, scale, fg);
        proof {
            let o = opt as int;
            assert(tx == emenu_label_x(o));
            assert forall|px: int, py: int| on_screen(px, py) implies #[trigger] fb.px@[offset(px, py)] == if exists|o2: int|
                0 <= o2 < opt + 1 && #[trigger] in_emenu_box(px, py, o2) {
                emenu_pixel(p0, size_idx as int, select_mode, px, py)
            } else {
                p0[offset(px, py)]
            } by {
                if text_covers(emenu_label(o), tx as int, y + 16, scale as int, px, py) {
                    lemma_text_covers_inside(emenu_label(o), tx as int, y + 16, scale as int, px, py);
                    assert(in_emenu_box(px, py, o));
                }
                if in_emenu_box(px, py, o) {
                    assert forall|o2: int| 0 <= o2 < 4 && #[trigger] in_emenu_box(px, py, o2) implies o2 == o by {
                        lemma_emenu_boxes_apart(px, py, o, o2);
                    }
                    assert(exists|o2: int| 0 <= o2 < 4 && #[trigger] in_emenu_box(px, py, o2));
                } else {
                    if exists|o2: int| 0 <= o2 < opt + 1 && #[trigger] in_emenu_box(px, py, o2) {
                        let o2 = choose|o2: int| 0 <= o2 < opt + 1 && #[trigger] in_emenu_box(px, py, o2);
                        assert(o2 < opt);
                    }
                }
            }
        }
        opt = opt + 1;
    }
    proof {
        assert forall|px: int, py: int| on_screen(px, py) && !(exists|o: int| 0 <= o < 4 && #[trigger] in_emenu_box(px, py, o)) implies
            emenu_pixel(p0, size_idx as int, select_mode, px, py) == p0[offset(px, py)] by {}
    }
}

/// Left edge of the status strip's text area.
pub const STATUS_LEFT: i32 = 122;

/// Redraws the status strip right of the toolbar: a blank band, `line1`
/// large in black, `line2` small in gray below it. Returns the rectangle
/// (x, y, width, height) of the screen to refresh.
pub fn draw_status(fb: &mut Fb, line1: &str, line2: &str) -> (rect: (i32, i32, i32, i32))
    requires
        old(fb).wf(),
        text_fits(STATUS_LEFT + 8, 10, 3, line1@.len() as int),
        text_fits(STATUS_LEFT + 8, 42, 2, line2@.len() as int),
    ensures
        final(fb).wf(),
        same_frame(old(fb).px@, final(fb).px@),
        rect == (STATUS_LEFT, 0i32, (W - STATUS_LEFT - 12) as i32, STATUS_H),
        forall|px: int, py: int|
            on_screen(px, py) ==> #[trigger] final(fb).px@[offset(px, py)] == if text_covers(line2@, STATUS_LEFT + 8, 42, 2, px, py) {
                GRAY
            } else if text_covers(line1@, STATUS_LEFT + 8, 10, 3, px, py) {
                BLACK
            } else if in_rect(px, py, STATUS_LEFT as int, 0, W - STATUS_LEFT - 12, STATUS_H - 4) {
                WHITE
            } else {
                old(fb).px@[offset(px, py)]
            },
{
    let left = SIDEBAR_W + 12;
    let width = W - left - 12;
    fb.fill_rect(left, 0, width, STATUS_H - 4, WHITE);
    fb.text(left + 8, 10, line1, 3, BLACK);
    fb.text(left + 8, 42, line2, 2, GRAY);
    (left, 0, width, STATUS_H)
}

/// What a tap on a toolbar slot asks for.
#[derive(Debug, Clone, Copy, PartialEq, Eq, Structural)]
pub enum SidebarCommand {
    Pen,
    Eraser,
    Undo,
    Redo,
    Clear,
}

/// The command of toolbar slot `slot`, if the tap landed in a slot.
pub fn sidebar_command(slot: Option<i32>) -> (command: Option<SidebarCommand>)
    ensures
        command == match slot {
            Some(0) => Some(SidebarCommand::Pen),
            Some(1) => Some(SidebarCommand::Eraser),
            Some(2) => Some(SidebarCommand::Undo),
            Some(3) => Some(SidebarCommand::Redo),
            Some(4) => Some(SidebarCommand::Clear),
            _ => None,
        },
{
    match slot {
        Some(0) => Some(SidebarCommand::Pen),
        Some(1) => Some(SidebarCommand::Eraser),
        Some(2) => Some(SidebarCommand::Undo),
        Some(3) => Some(SidebarCommand::Redo),
        Some(4) => Some(SidebarCommand::Clear),
        _ => None,
    }
}

/// What a touch press on the tablet app reaches.
#[derive(Debug, Clone, Copy, PartialEq, Eq, Structural)]
pub enum TouchTarget {
    /// Nothing: the pen is down.
    Ignore,
    /// An option of the eraser flyout, shown in eraser mode.
    EraserOption(i32),
    /// The drawing canvas, where a finger drags strokes.
    Canvas,
    /// The status strip above the canvas; nothing there is tappable.
    StatusStrip,
    /// The toolbar, with the command of the slot tapped, if any.
    Sidebar(Option<SidebarCommand>),
}

/// The command of the toolbar slot `slot`, if any.
pub open spec fn command_of(slot: Option<int>) -> Option<SidebarCommand> {
    match slot {
        Some(s) => if s == 0 {
            Some(SidebarCommand::Pen)
        } else if s == 1 {
            Some(SidebarCommand::Eraser)
        } else if s == 2 {
            Some(SidebarCommand::Undo)
        } else if s == 3 {
            Some(SidebarCommand::Redo)
        } else if s == 4 {
            Some(SidebarCommand::Clear)
        } else {
            None
        },
        None => None,
    }
}

/// The target of a touch press at (`x`, `y`).
pub open spec fn touch_target_of(x: int, y: int, pen_down: bool, erase_mode: bool) -> TouchTarget {
    if pen_down {
        TouchTarget::Ignore
    } else if erase_mode && emenu_option_at(x, y) is Some {
        TouchTarget::EraserOption(emenu_option_at(x, y)->0 as i32)
    } else if x >= SIDEBAR_W && y >= STATUS_H {
        TouchTarget::Canvas
    } else if x >= SIDEBAR_W {
        TouchTarget::StatusStrip
    } else {
        TouchTarget::Sidebar(command_of(slot_at(y)))
    }
}

/// Where a touch press at (`x`, `y`) lands: ignored while the pen is down,
/// then the eraser flyout (in eraser mode), the canvas, the status strip, or
/// the toolbar slot under it.
pub fn touch_target(x: i32, y: i32, pen_down: bool, erase_mode: bool) -> (target: TouchTarget)
    ensures
        target == touch_target_of(x as int, y as int, pen_down, erase_mode),
{
    if pen_down {
        return TouchTarget::Ignore;
    }
    if erase_mode {
        if let Some(opt) = eraser_menu_option(x, y) {
            return TouchTarget::EraserOption(opt);
        }
    }
    if x >= SIDEBAR_W && y >= STATUS_H {
        TouchTarget::Canvas
    } else if x >= SIDEBAR_W {
        TouchTarget::StatusStrip
    } else {
        let slot = if y < 15 {
            None
        } else {
            icon_slot(y)
        };
        TouchTarget::Sidebar(sidebar_command(slot))
    }
}

/// What the pen does at a point of the screen.
#[derive(Debug, Clone, Copy, PartialEq, Eq, Structural)]
pub enum PenTarget {
    /// Over the toolbar or the status strip: ignored.
    Chrome,
    /// Over the eraser flyout in eraser mode: ignored, so it is not erased under.
    EraserMenu,
    /// Inking a stroke.
    Ink,
    /// Erasing.
    Erase,
}

/// What the pen does at (`x`, `y`): nothing over the chrome or, in eraser
/// mode, over the eraser flyout's column; otherwise it erases in eraser mode
/// and inks in pen mode.
pub fn pen_target(x: i32, y: i32, erase_mode: bool) -> (target: PenTarget)
    ensures
        target == if x < SIDEBAR_W + 4 || y < STATUS_H {
            PenTarget::Chrome
        } else if erase_mode && x < SIDEBAR_W + EMENU_W + 12 {
            PenTarget::EraserMenu
        } else if erase_mode {
            PenTarget::Erase
        } else {
            PenTarget::Ink
        },
{
    if x < SIDEBAR_W + 4 || y < STATUS_H {
        PenTarget::Chrome
    } else if erase_mode && x < SIDEBAR_W + EMENU_W + 12 {
        PenTarget::EraserMenu
    } else if erase_mode {
        PenTarget::Erase
    } else {
        PenTarget::Ink
    }
}

/// The eraser's settings: the scrub size chosen and whether the selection
/// loop is on.
#[derive(Debug, Clone, Copy, PartialEq, Eq, Structural)]
pub struct EraserSettings {
    pub size_idx: usize,
    pub select_mode: bool,
}

/// The eraser settings after option `opt` of the flyout is tapped: the last
/// option turns the selection loop on and keeps the size, the others choose
/// a scrub size and turn the loop off.
pub fn choose_eraser_option(settings: EraserSettings, opt: i32) -> (chosen: EraserSettings)
    requires
        0 <= opt <= 3,
    ensures
        chosen == if opt == 3 {
            EraserSettings { size_idx: settings.size_idx, select_mode: true }
        } else {
            EraserSettings { size_idx: opt as usize, select_mode: false }
        },
        // Exactly one option of the flyout is highlighted afterwards.
        chosen.select_mode || chosen.size_idx < 3,
{
    if opt == 3 {
        EraserSettings { size_idx: settings.size_idx, select_mode: true }
    } else {
        EraserSettings { size_idx: opt as usize, select_mode: false }
    }
}

/// The page and the redo stack after an undo: the last stroke, if any,
/// moves onto the redo stack.
pub open spec fn undo_spec<T>(strokes: Seq<T>, redo: Seq<T>) -> (Seq<T>, Seq<T>) {
    if strokes.len() == 0 {
        (strokes, redo)
    } else {
        (strokes.drop_last(), redo.push(strokes.last()))
    }
}

/// The page and the redo stack after a redo: the last undone stroke, if
/// any, comes back onto the page.
pub open spec fn redo_spec<T>(strokes: Seq<T>, redo: Seq<T>) -> (Seq<T>, Seq<T>) {
    if redo.len() == 0 {
        (strokes, redo)
    } else {
        (strokes.push(redo.last()), redo.drop_last())
    }
}

/// The page and the redo stack after a clear: every stroke moves, in
/// drawing order, onto the redo stack.
pub open spec fn clear_spec<T>(strokes: Seq<T>, redo: Seq<T>) -> (Seq<T>, Seq<T>) {
    (Seq::empty(), redo + strokes)
}

/// Undo: the last stroke, if any, moves onto the redo stack.
pub fn undo_stroke<T>(strokes: &mut Vec<T>, redo: &mut Vec<T>)
    ensures
        (final(strokes)@, final(redo)@) == undo_spec(old(strokes)@, old(redo)@),
{
    if let Some(s) = strokes.pop() {
        redo.push(s);
    }
}

/// Redo: the last undone stroke, if any, comes back onto the page.
pub fn redo_stroke<T>(strokes: &mut Vec<T>, redo: &mut Vec<T>)
    ensures
        (final(strokes)@, final(redo)@) == redo_spec(old(strokes)@, old(redo)@),
{
    if let Some(s) = redo.pop() {
        strokes.push(s);
    }
}

/// Clear: every stroke moves onto the redo stack, so that redo taps bring
/// them back one by one.
pub fn clear_strokes<T>(strokes: &mut Vec<T>, redo: &mut Vec<T>)
    ensures
        (final(strokes)@, final(redo)@) == clear_spec(old(strokes)@, old(redo)@),
{
    redo.append(strokes);
}

/// The page and the redo stack after a new stroke: the stroke goes onto the
/// page and the redo stack is emptied.
pub open spec fn commit_spec<T>(strokes: Seq<T>, redo: Seq<T>, stroke: T) -> (Seq<T>, Seq<T>) {
    (strokes.push(stroke), Seq::empty())
}

/// A finished stroke: it goes onto the page, and the strokes waiting to be
/// redone are dropped.
pub fn commit_stroke<T>(strokes: &mut Vec<T>, redo: &mut Vec<T>, stroke: T)
    ensures
        (final(strokes)@, final(redo)@) == commit_spec(old(strokes)@, old(redo)@, stroke),
{
    strokes.push(stroke);
    redo.clear();
}

/// An undo right after a new stroke takes that stroke back: the page is as
/// before the stroke, and the stroke alone waits to be redone.
pub proof fn lemma_undo_takes_back_commit<T>(strokes: Seq<T>, redo: Seq<T>, stroke: T)
    ensures
        ({
            let (s1, r1) = commit_spec(strokes, redo, stroke);
            undo_spec(s1, r1) == (strokes, seq![stroke])
        }),
{
    assert(strokes.push(stroke).drop_last() =~= strokes);
    assert(Seq::<T>::empty().push(stroke) =~= seq![stroke]);
}

/// An outcome starts the activation effect when its spell is active and its
/// signature differs from that of the last activation, so that one spell
/// activates once however often it is reported.
pub fn activation_due(active: bool, signature: &str, last_activation: &str) -> (due: bool)
    ensures
        due == (active && signature@ != last_activation@),
{
    active && !str_eq(signature, last_activation)
}

/// The two lists of stroke ids hold the same ids in the same order.
pub open spec fn same_ids(a: Seq<String>, b: Seq<String>) -> bool {
    a.len() == b.len() && forall|i: int| 0 <= i < a.len() ==> (#[trigger] a[i])@ == b[i]@
}

/// The completed ring's strokes are redrawn as a snapped circle once per
/// new list of ring stroke ids: when `ring_ids` differs from the list last
/// snapped.
pub fn ring_snap_due(ring_ids: &[String], snapped_ids: &[String]) -> (due: bool)
    ensures
        due == !same_ids(ring_ids@, snapped_ids@),
{
    if ring_ids.len() != snapped_ids.len() {
        return true;
    }
    let mut i: usize = 0;
    while i < ring_ids.len()
        invariant
            ring_ids@.len() == snapped_ids@.len(),
            i <= ring_ids@.len(),
            forall|k: int| 0 <= k < i ==> (#[trigger] ring_ids@[k])@ == snapped_ids@[k]@,
        decreases ring_ids@.len() - i,
    {
        if !str_eq(ring_ids[i].as_str(), snapped_ids[i].as_str()) {
            return true;
        }
        i = i + 1;
    }
    false
}

/// A redo takes back an undo: the page and the redo stack are as before.
pub proof fn lemma_redo_undoes_undo<T>(strokes: Seq<T>, redo: Seq<T>)
    requires
        strokes.len() > 0,
    ensures
        ({
            let (s1, r1) = undo_spec(strokes, redo);
            redo_spec(s1, r1) == (strokes, redo)
        }),
{
    assert(strokes.drop_last().push(strokes.last()) =~= strokes);
    assert(redo.push(strokes.last()).drop_last() =~= redo);
}

/// An undo takes back a redo: the page and the redo stack are as before.
pub proof fn lemma_undo_undoes_redo<T>(strokes: Seq<T>, redo: Seq<T>)
    requires
        redo.len() > 0,
    ensures
        ({
            let (s1, r1) = redo_spec(strokes, redo);
            undo_spec(s1, r1) == (strokes, redo)
        }),
{
    assert(strokes.push(redo.last()).drop_last() =~= strokes);
    assert(redo.drop_last().push(redo.last()) =~= redo);
}

/// Strokes are never lost: undo, redo and clear keep, between the page and
/// the redo stack, the same strokes.
pub proof fn lemma_history_keeps_strokes<T>(strokes: Seq<T>, redo: Seq<T>)
    ensures
        ({
            let (s1, r1) = undo_spec(strokes, redo);
            (s1 + r1).to_multiset() == (strokes + redo).to_multiset()
        }),
        ({
            let (s1, r1) = redo_spec(strokes, redo);
            (s1 + r1).to_multiset() == (strokes + redo).to_multiset()
        }),
        ({
            let (s1, r1) = clear_spec(strokes, redo);
            (s1 + r1).to_multiset() == (strokes + redo).to_multiset()
        }),
{
    broadcast use vstd::seq_lib::group_seq_properties;
    broadcast use vstd::multiset::group_multiset_axioms;
    vstd::seq_lib::lemma_multiset_commutative(strokes, redo);
    if strokes.len() > 0 {
        let s1 = strokes.drop_last();
        let r1 = redo.push(strokes.last());
        assert(strokes =~= s1 + seq![strokes.last()]);
        assert(r1 =~= redo + seq![strokes.last()]);
        vstd::seq_lib::lemma_multiset_commutative(s1, r1);
        vstd::seq_lib::lemma_multiset_commutative(s1, seq![strokes.last()]);
        vstd::seq_lib::lemma_multiset_commutative(redo, seq![strokes.last()]);
        assert((s1 + r1).to_multiset() =~= (strokes + redo).to_multiset());
    }
    if redo.len() > 0 {
        let s1 = strokes.push(redo.last());
        let r1 = redo.drop_last();
        assert(redo =~= r1 + seq![redo.last()]);
        assert(s1 =~= strokes + seq![redo.last()]);
        vstd::seq_lib::lemma_multiset_commutative(s1, r1);
        vstd::seq_lib::lemma_multiset_commutative(r1, seq![redo.last()]);
        vstd::seq_lib::lemma_multiset_commutative(strokes, seq![redo.last()]);
        assert((s1 + r1).to_multiset() =~= (strokes + redo).to_multiset());
    }
    let e = Seq::<T>::empty();
    assert(e + (redo + strokes) =~= redo + strokes);
    vstd::seq_lib::lemma_multiset_commutative(redo, strokes);
    assert((redo + strokes).to_multiset() =~= (strokes + redo).to_multiset());
}

} // verus!
