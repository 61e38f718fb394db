//! The game's screens and the transitions between them.
use crate::bitmap_font::{centered_x, draw_centered, text_glyphs, text_pixels};
use crate::canvas::paint;
use vstd::string::StringSliceAdditionalSpecFns;
use vstd::prelude::*;

verus! {

pub const MENU_BACKGROUND: u32 = 0x111827;
pub const SUCCESS_BACKGROUND: u32 = 0x102A1D;
pub const TITLE_COLOR: u32 = 0xF4D35E;
pub const TEXT_COLOR: u32 = 0xF7FAFC;
pub const ACCENT_COLOR: u32 = 0x62C3ED;

pub const MENU_TITLE: &'static str = "PROYECTO 1 - RAY CASTER";
pub const MENU_START: &'static str = "ENTER O ESPACIO PARA JUGAR";
pub const MENU_CONTROLS: &'static str = "WASD Y MOUSE PARA MOVERTE";
pub const MENU_GOAL: &'static str = "BUSCA LA META VERDE EN EL MINIMAPA";
pub const SUCCESS_TITLE: &'static str = "EXITO";
pub const SUCCESS_TEXT: &'static str = "LLEGASTE A LA META";
pub const SUCCESS_BACK: &'static str = "ENTER PARA VOLVER AL MENU";

#[derive(Debug, Clone, Copy, PartialEq, Eq, Structural)]
pub enum GameState {
    Menu,
    Playing,
    Success,
}

/// The state after a start request: only the menu starts a game.
pub open spec fn started(state: GameState) -> GameState {
    if state == GameState::Menu { GameState::Playing } else { state }
}

/// The state after a goal check: a game in progress ends in success when the
/// player has reached the goal.
pub open spec fn goal_checked(state: GameState, at_goal: bool) -> GameState {
    if state == GameState::Playing && at_goal { GameState::Success } else { state }
}

/// The state after a request to go back: only the success screen returns to the menu.
pub open spec fn returned(state: GameState) -> GameState {
    if state == GameState::Success { GameState::Menu } else { state }
}

impl GameState {
    pub fn start(&mut self)
        ensures
            *final(self) == started(*old(self)),
    {
        if *self == Self::Menu {
            *self = Self::Playing;
        }
    }

    /// Ends the game in success when it is in progress and `at_goal` says the
    /// player stands within reach of the goal.
    pub fn check_goal(&mut self, at_goal: bool)
        ensures
            *final(self) == goal_checked(*old(self), at_goal),
    {
        if *self != Self::Playing {
            return;
        }
        if at_goal {
            *self = Self::Success;
        }
    }

    pub fn return_to_menu(&mut self)
        ensures
            *final(self) == returned(*old(self)),
    {
        if *self == Self::Success {
            *self = Self::Menu;
        }
    }
}

/// A game ends in success only from a game in progress at the goal; only the
/// menu starts a game; only the success screen leads back to the menu; and
/// from any screen, starting, reaching the goal and going back ends on the menu.
pub proof fn lemma_screen_flow(state: GameState, at_goal: bool)
    ensures
        goal_checked(state, at_goal) == GameState::Success ==> state == GameState::Success || (state
            == GameState::Playing && at_goal),
        started(state) == GameState::Playing ==> state == GameState::Menu || state == GameState::Playing,
        returned(state) == GameState::Menu ==> state == GameState::Menu || state == GameState::Success,
        returned(goal_checked(started(state), true)) == GameState::Menu,
{
}

/// The pixels of `text` centred on row `y` of a raster `width` wide.
pub open spec fn centered_line(width: int, y: int, text: Seq<u8>, scale: int) -> spec_fn(int, int) -> bool {
    text_pixels(text_glyphs(text), centered_x(width, text.len() as int, scale), y, scale)
}

/// A buffer of `length` pixels, all `color`.
pub open spec fn filled(length: nat, color: u32) -> Seq<u32> {
    Seq::new(length, |i: int| color)
}

/// The menu screen drawn over a buffer of `length` pixels.
pub open spec fn menu_screen(length: nat, width: int, height: int) -> Seq<u32> {
    let background = filled(length, MENU_BACKGROUND);
    if length == width * height {
        paint(
            paint(
                paint(
                    paint(background, width, centered_line(width, height / 3, MENU_TITLE.spec_bytes(), 3), TITLE_COLOR),
                    width,
                    centered_line(width, height / 2, MENU_START.spec_bytes(), 2),
                    TEXT_COLOR,
                ),
                width,
                centered_line(width, height * 2 / 3, MENU_CONTROLS.spec_bytes(), 2),
                ACCENT_COLOR,
            ),
            width,
            centered_line(width, height * 2 / 3 + 42, MENU_GOAL.spec_bytes(), 2),
            ACCENT_COLOR,
        )
    } else {
        background
    }
}

/// The success screen drawn over a buffer of `length` pixels.
pub open spec fn success_screen(length: nat, width: int, height: int) -> Seq<u32> {
    let background = filled(length, SUCCESS_BACKGROUND);
    if length == width * height {
        paint(
            paint(
                paint(background, width, centered_line(width, height / 3, SUCCESS_TITLE.spec_bytes(), 5), TITLE_COLOR),
                width,
                centered_line(width, height / 2, SUCCESS_TEXT.spec_bytes(), 2),
                TEXT_COLOR,
            ),
            width,
            centered_line(width, height * 2 / 3, SUCCESS_BACK.spec_bytes(), 2),
            ACCENT_COLOR,
        )
    } else {
        background
    }
}

/// Sets every pixel of the buffer to `color`.
fn fill_screen(buffer: &mut [u32], color: u32)
    ensures
        final(buffer)@ == filled(old(buffer)@.len(), color),
{
    let mut i: usize = 0;
    while i < buffer.len()
        invariant
            buffer@.len() == old(buffer)@.len(),
            i <= buffer@.len(),
            forall|j: int| 0 <= j < i ==> buffer@[j] == color,
        decreases buffer@.len() - i,
    {
        buffer[i] = color;
        i = i + 1;
    }
    assert(buffer@ =~= filled(old(buffer)@.len(), color));
}

/// The byte length of each screen line, learnt from the literals.
proof fn lemma_line_lengths()
    ensures
        MENU_TITLE.spec_bytes().len() == 23,
        MENU_START.spec_bytes().len() == 26,
        MENU_CONTROLS.spec_bytes().len() == 25,
        MENU_GOAL.spec_bytes().len() == 34,
        SUCCESS_TITLE.spec_bytes().len() == 5,
        SUCCESS_TEXT.spec_bytes().len() == 18,
        SUCCESS_BACK.spec_bytes().len() == 25,
{
    reveal_strlit("PROYECTO 1 - RAY CASTER");
    reveal_strlit("ENTER O ESPACIO PARA JUGAR");
    reveal_strlit("WASD Y MOUSE PARA MOVERTE");
    reveal_strlit("BUSCA LA META VERDE EN EL MINIMAPA");
    reveal_strlit("EXITO");
    reveal_strlit("LLEGASTE A LA META");
    reveal_strlit("ENTER PARA VOLVER AL MENU");
    vstd::string::is_ascii_spec_bytes(MENU_TITLE);
    vstd::string::is_ascii_spec_bytes(MENU_START);
    vstd::string::is_ascii_spec_bytes(MENU_CONTROLS);
    vstd::string::is_ascii_spec_bytes(MENU_GOAL);
    vstd::string::is_ascii_spec_bytes(SUCCESS_TITLE);
    vstd::string::is_ascii_spec_bytes(SUCCESS_TEXT);
    vstd::string::is_ascii_spec_bytes(SUCCESS_BACK);
}

/// A centred line of `length` glyphs stays within `usize`: it starts at most
/// half the raster's width in, and rows stay at most half of `usize` down.
proof fn lemma_centered_fits(width: int, y: int, length: int, scale: int)
    requires
        0 <= width <= usize::MAX,
        0 <= y <= usize::MAX / 2 + 42,
        0 <= length <= 40,
        1 <= scale <= 5,
    ensures
        crate::bitmap_font::text_fits(length, centered_x(width, length, scale), y, scale),
{
    assert(length * (6 * scale) <= 1200) by (nonlinear_arith)
        requires
            0 <= length <= 40,
            1 <= scale <= 5,
    ;
}

/// Draws the welcome screen with the instructions.
pub fn draw_menu(buffer: &mut [u32], width: usize, height: usize)
    requires
        height <= usize::MAX / 2,
    ensures
        final(buffer)@ == menu_screen(old(buffer)@.len(), width as int, height as int),
{
    proof {
        lemma_line_lengths();
        lemma_centered_fits(width as int, (height / 3) as int, 23, 3);
        lemma_centered_fits(width as int, (height / 2) as int, 26, 2);
        lemma_centered_fits(width as int, (height * 2 / 3) as int, 25, 2);
        lemma_centered_fits(width as int, (height * 2 / 3 + 42) as int, 34, 2);
    }
    fill_screen(buffer, MENU_BACKGROUND);
    draw_centered(buffer, width, height, height / 3, MENU_TITLE.as_bytes(), 3, TITLE_COLOR);
    draw_centered(buffer, width, height, height / 2, MENU_START.as_bytes(), 2, TEXT_COLOR);
    draw_centered(buffer, width, height, height * 2 / 3, MENU_CONTROLS.as_bytes(), 2, ACCENT_COLOR);
    draw_centered(buffer, width, height, height * 2 / 3 + 42, MENU_GOAL.as_bytes(), 2, ACCENT_COLOR);
}

/// Draws the screen shown after reaching the goal.
pub fn draw_success(buffer: &mut [u32], width: usize, height: usize)
    requires
        height <= usize::MAX / 2,
    ensures
        final(buffer)@ == success_screen(old(buffer)@.len(), width as int, height as int),
{
    proof {
        lemma_line_lengths();
        lemma_centered_fits(width as int, (height / 3) as int, 5, 5);
        lemma_centered_fits(width as int, (height / 2) as int, 18, 2);
        lemma_centered_fits(width as int, (height * 2 / 3) as int, 25, 2);
    }
    fill_screen(buffer, SUCCESS_BACKGROUND);
    draw_centered(buffer, width, height, height / 3, SUCCESS_TITLE.as_bytes(), 5, TITLE_COLOR);
    draw_centered(buffer, width, height, height / 2, SUCCESS_TEXT.as_bytes(), 2, TEXT_COLOR);
    draw_centered(buffer, width, height, height * 2 / 3, SUCCESS_BACK.as_bytes(), 2, ACCENT_COLOR);
}

} // verus!
