//! The header of the screen: its layout class, its slogan and the wave that runs over it.

use crate::text::chars_of;
use vstd::prelude::*;

verus! {

/// How long each word of the slogan waits, in nanoseconds.
pub const SLOGAN_STEP: u64 = 2_000_000_000;

/// When the slogan is complete.
pub const STARTUP_REVEAL: u64 = 6_000_000_000;

/// How long a wave runs.
pub const WAVE_DURATION: u64 = 1_800_000_000;

/// How long a frame of a wave stays.
pub const WAVE_FRAME: u64 = 60_000_000;

/// How long it is from the end of a wave to the next.
pub const WAVE_INTERVAL: u64 = 60_000_000_000;

/// How many columns a wave has.
pub const RAINBOW_BAND_WIDTH: usize = 14;

/// How many columns stand between the logo and the slogan where there is room.
pub const PREFERRED_SLOGAN_GAP: usize = 12;

/// The colours of the screen.
#[derive(Clone, Copy, Debug, PartialEq, Eq, Structural)]
pub enum Colour {
    Black,
    Red,
    LightRed,
    Yellow,
    Green,
    Cyan,
    Blue,
    Magenta,
    White,
}

/// What the header shows at a moment.
#[derive(Clone, Copy, Debug, PartialEq, Eq)]
pub struct HeaderSnapshot {
    pub slogan: &'static str,
    pub wave_active: bool,
    pub wave_elapsed: Option<u64>,
}

/// The animation of the header: what it shows depends on the time since the start alone.
#[derive(Clone, Copy, Debug)]
pub struct HeaderAnimationState;

/// The slogan at a time.
pub open spec fn slogan_at(elapsed: u64) -> Seq<char> {
    if elapsed < SLOGAN_STEP {
        ""@
    } else if elapsed < SLOGAN_STEP * 2 {
        "BACKUPS"@
    } else if elapsed < STARTUP_REVEAL {
        "BACKUPS SAVE"@
    } else {
        "BACKUPS SAVE LIVES"@
    }
}

/// When the first of the recurring waves starts.
pub open spec fn first_recurrence() -> int {
    STARTUP_REVEAL + WAVE_DURATION + WAVE_INTERVAL
}

/// How far a time is in its cycle of a wave and the pause behind it, in whole milliseconds.
pub open spec fn within_cycle(elapsed: u64) -> int {
    (elapsed - first_recurrence()) / 1_000_000 % 61_800 * 1_000_000
}

/// How long the wave at a time has run.
pub open spec fn wave_at(elapsed: u64) -> Option<u64> {
    if STARTUP_REVEAL <= elapsed < STARTUP_REVEAL + WAVE_DURATION {
        Some((elapsed - STARTUP_REVEAL) as u64)
    } else if elapsed >= first_recurrence() && within_cycle(elapsed) < WAVE_DURATION {
        Some(within_cycle(elapsed) as u64)
    } else {
        None
    }
}

/// How long the header stays as it is at a time.
pub open spec fn delay_at(elapsed: u64) -> int {
    if wave_at(elapsed) is Some {
        WAVE_FRAME as int
    } else if elapsed < SLOGAN_STEP {
        SLOGAN_STEP - elapsed
    } else if elapsed < SLOGAN_STEP * 2 {
        SLOGAN_STEP * 2 - elapsed
    } else if elapsed < STARTUP_REVEAL {
        STARTUP_REVEAL - elapsed
    } else if elapsed < first_recurrence() {
        first_recurrence() - elapsed
    } else {
        WAVE_INTERVAL + WAVE_DURATION - within_cycle(elapsed)
    }
}

fn cycle_position(elapsed: u64) -> (r: u64)
    requires
        elapsed >= first_recurrence(),
    ensures
        r == within_cycle(elapsed),
        r < WAVE_INTERVAL + WAVE_DURATION,
{
    (elapsed - (STARTUP_REVEAL + WAVE_DURATION + WAVE_INTERVAL)) / 1_000_000 % 61_800 * 1_000_000
}

impl HeaderAnimationState {
    /// What the header shows at a time.
    pub fn snapshot(self, elapsed: u64) -> (r: HeaderSnapshot)
        ensures
            r.slogan@ == slogan_at(elapsed),
            r.wave_elapsed == wave_at(elapsed),
            r.wave_active == (wave_at(elapsed) is Some),
    {
        let slogan: &'static str = if elapsed < SLOGAN_STEP {
            ""
        } else if elapsed < SLOGAN_STEP * 2 {
            "BACKUPS"
        } else if elapsed < STARTUP_REVEAL {
            "BACKUPS SAVE"
        } else {
            "BACKUPS SAVE LIVES"
        };
        let wave_elapsed: Option<u64> = if elapsed >= STARTUP_REVEAL && elapsed < STARTUP_REVEAL
            + WAVE_DURATION {
            Some(elapsed - STARTUP_REVEAL)
        } else if elapsed >= STARTUP_REVEAL + WAVE_DURATION + WAVE_INTERVAL {
            let within: u64 = cycle_position(elapsed);
            if within < WAVE_DURATION {
                Some(within)
            } else {
                None
            }
        } else {
            None
        };
        HeaderSnapshot { slogan, wave_active: wave_elapsed.is_some(), wave_elapsed }
    }

    /// How long the header stays as it is at a time.
    pub fn next_delay(self, elapsed: u64) -> (r: u64)
        ensures
            r == delay_at(elapsed),
    {
        let snapshot: HeaderSnapshot = self.snapshot(elapsed);
        if snapshot.wave_active {
            return WAVE_FRAME;
        }
        if elapsed < SLOGAN_STEP {
            return SLOGAN_STEP - elapsed;
        }
        if elapsed < SLOGAN_STEP * 2 {
            return SLOGAN_STEP * 2 - elapsed;
        }
        if elapsed < STARTUP_REVEAL {
            return STARTUP_REVEAL - elapsed;
        }
        if elapsed < STARTUP_REVEAL + WAVE_DURATION + WAVE_INTERVAL {
            return STARTUP_REVEAL + WAVE_DURATION + WAVE_INTERVAL - elapsed;
        }
        let within: u64 = cycle_position(elapsed);
        WAVE_INTERVAL + WAVE_DURATION - within
    }
}

/// The header is looked at again within a minute, and never at once.
pub proof fn law_delays_are_bounded(elapsed: u64)
    ensures
        0 < delay_at(elapsed) <= WAVE_INTERVAL,
        wave_at(elapsed) is Some ==> delay_at(elapsed) == WAVE_FRAME,
{
}

/// The slogan is revealed once: what is shown of it stays and is added to, and from the end of the
/// reveal on all of it is shown.
pub proof fn law_slogan_is_revealed_once(earlier: u64, later: u64)
    requires
        earlier <= later,
    ensures
        slogan_at(earlier).is_prefix_of(slogan_at(later)),
        earlier >= STARTUP_REVEAL ==> slogan_at(later) == slogan_at(earlier),
{
    reveal_strlit("");
    reveal_strlit("BACKUPS");
    reveal_strlit("BACKUPS SAVE");
    reveal_strlit("BACKUPS SAVE LIVES");
    let (shown, more) = (slogan_at(earlier), slogan_at(later));
    assert(shown =~= more.subrange(0, shown.len() as int));
}

/// Every recurring wave runs as the first one did, for as long and with the same pause behind it,
/// in every round that the clock can count. The first runs by the nanosecond, the others by the
/// millisecond.
pub proof fn law_waves_repeat(within: u64, round: u64)
    requires
        within < WAVE_DURATION + WAVE_INTERVAL,
        first_recurrence() + round * 61_800_000_000 + within <= u64::MAX,
    ensures
        wave_at((STARTUP_REVEAL + within) as u64) == if within < WAVE_DURATION {
            Some(within)
        } else {
            None
        },
        wave_at((first_recurrence() + round * 61_800_000_000 + within) as u64) == if within
            < WAVE_DURATION {
            Some((within / 1_000_000 * 1_000_000) as u64)
        } else {
            None
        },
        delay_at((first_recurrence() + round * 61_800_000_000 + within) as u64) == delay_at(
            (first_recurrence() + within) as u64,
        ),
{
    let at = first_recurrence() + round * 61_800_000_000 + within;
    assert((at - first_recurrence()) / 1_000_000 == round * 61_800 + within / 1_000_000);
    assert((round * 61_800 + within / 1_000_000) % 61_800 == within / 1_000_000);
}

/// How much room a terminal has.
#[derive(Clone, Copy, Debug, PartialEq, Eq, Structural)]
pub enum LayoutClass {
    Wide,
    Medium,
    Minimum,
    TooSmall,
}

/// How much room a terminal has.
pub open spec fn class_of(width: u16, height: u16) -> LayoutClass {
    if width < 38 || height < 10 {
        LayoutClass::TooSmall
    } else if width < 50 || height < 14 {
        LayoutClass::Minimum
    } else if width < 80 {
        LayoutClass::Medium
    } else {
        LayoutClass::Wide
    }
}

/// How much room a terminal has.
pub fn layout_class(width: u16, height: u16) -> (r: LayoutClass)
    ensures
        r == class_of(width, height),
{
    if width < 38 || height < 10 {
        LayoutClass::TooSmall
    } else if width < 50 || height < 14 {
        LayoutClass::Minimum
    } else if width < 80 {
        LayoutClass::Medium
    } else {
        LayoutClass::Wide
    }
}

/// How many rows the diff gets.
pub open spec fn diff_rows(class: LayoutClass, terminal_height: u16) -> u16 {
    if class == LayoutClass::Minimum || terminal_height < 15 {
        3
    } else if terminal_height >= 18 {
        9
    } else {
        6
    }
}

/// How many rows the diff gets.
pub fn diff_panel_height(class: LayoutClass, terminal_height: u16) -> (r: u16)
    ensures
        r == diff_rows(class, terminal_height),
{
    if class == LayoutClass::Minimum || terminal_height < 15 {
        3
    } else if terminal_height >= 18 {
        9
    } else {
        6
    }
}

/// How many rows the header gets.
pub open spec fn header_rows(class: LayoutClass) -> u16 {
    if class == LayoutClass::TooSmall {
        1
    } else {
        5
    }
}

/// How many rows the header gets.
pub fn header_height(class: LayoutClass) -> (r: u16)
    ensures
        r == header_rows(class),
{
    match class {
        LayoutClass::TooSmall => 1,
        LayoutClass::Wide | LayoutClass::Medium | LayoutClass::Minimum => 5,
    }
}

/// The colour of a column of a wave.
pub open spec fn band_colour(relative: int) -> Colour {
    let place = relative % 7;
    if place == 0 {
        Colour::Red
    } else if place == 1 {
        Colour::LightRed
    } else if place == 2 {
        Colour::Yellow
    } else if place == 3 {
        Colour::Green
    } else if place == 4 {
        Colour::Cyan
    } else if place == 5 {
        Colour::Blue
    } else {
        Colour::Magenta
    }
}

/// The colour of a column of a wave.
pub fn rainbow_colour(relative: usize) -> (r: Colour)
    ensures
        r == band_colour(relative as int),
{
    let place: usize = relative % 7;
    if place == 0 {
        Colour::Red
    } else if place == 1 {
        Colour::LightRed
    } else if place == 2 {
        Colour::Yellow
    } else if place == 3 {
        Colour::Green
    } else if place == 4 {
        Colour::Cyan
    } else if place == 5 {
        Colour::Blue
    } else {
        Colour::Magenta
    }
}

/// The first column of a wave: it comes in from the left and leaves to the right.
pub open spec fn band_left(width: int, elapsed: u64) -> int {
    let millis = elapsed as int / 1_000_000;
    (if millis < 1_800 {
        millis
    } else {
        1_800
    }) * (width + 14) / 1_800 - 14
}

proof fn lemma_band(millis: int, width: int)
    requires
        0 <= millis <= 1_800,
        0 <= width,
    ensures
        0 <= millis * (width + 14) <= 1_800 * (width + 14),
        0 <= millis * (width + 14) / 1_800 <= width + 14,
{
    assert(0 <= millis * (width + 14) <= 1_800 * (width + 14)) by (nonlinear_arith)
        requires
            0 <= millis <= 1_800,
            0 <= width,
    ;
}

/// The first column of a wave.
pub fn rainbow_band_left(width: usize, elapsed: u64) -> (r: isize)
    requires
        1_800 * (width + 14) <= isize::MAX,
    ensures
        r == band_left(width as int, elapsed),
{
    let whole: u64 = elapsed / 1_000_000;
    let millis: usize = if whole < 1_800 {
        whole as usize
    } else {
        1_800
    };
    proof {
        lemma_band(millis as int, width as int);
    }
    let distance: usize = millis * (width + RAINBOW_BAND_WIDTH) / 1_800;
    distance as isize - 14
}

/// A wave never goes back, starts left of the screen and ends right of it.
pub proof fn law_wave_travels_right(width: int, earlier: u64, later: u64)
    requires
        0 <= width,
        earlier <= later,
    ensures
        -14 <= band_left(width, earlier) <= band_left(width, later) <= width,
        later >= WAVE_DURATION ==> band_left(width, later) == width,
{
    let a = if earlier as int / 1_000_000 < 1_800 {
        earlier as int / 1_000_000
    } else {
        1_800
    };
    let b = if later as int / 1_000_000 < 1_800 {
        later as int / 1_000_000
    } else {
        1_800
    };
    lemma_band(a, width);
    lemma_band(b, width);
    assert(a * (width + 14) <= b * (width + 14)) by (nonlinear_arith)
        requires
            0 <= a <= b,
            0 <= width,
    ;
}

/// The colour of a column of the header: that of the wave where it stands, else its own.
pub open spec fn colour_at(column: int, width: int, wave: Option<u64>, own: Colour) -> Colour {
    match wave {
        Some(elapsed) if elapsed < WAVE_DURATION => {
            let relative = column - band_left(width, elapsed);
            if 0 <= relative < 14 {
                band_colour(relative)
            } else {
                own
            }
        },
        _ => own,
    }
}

fn wave_colour(column: i128, width: usize, wave_elapsed: Option<u64>, own: Colour) -> (r: Colour)
    requires
        1_800 * (width + 14) <= isize::MAX,
        0 <= column <= 0xffff_ffff_ffff_ffff_ffff,
    ensures
        r == colour_at(column as int, width as int, wave_elapsed, own),
{
    match wave_elapsed {
        Some(elapsed) => if elapsed < WAVE_DURATION {
            let left: isize = rainbow_band_left(width, elapsed);
            let relative: i128 = column - left as i128;
            if 0 <= relative && relative < 14 {
                rainbow_colour(relative as usize)
            } else {
                own
            }
        } else {
            own
        },
        None => own,
    }
}

/// The colour of a column of the header.
pub fn header_colour(column: usize, width: usize, wave_elapsed: Option<u64>, own: Colour) -> (r: Colour)
    requires
        1_800 * (width + 14) <= isize::MAX,
    ensures
        r == colour_at(column as int, width as int, wave_elapsed, own),
{
    wave_colour(column as i128, width, wave_elapsed, own)
}

/// The columns between the logo and the slogan: the preferred gap, or what is left.
pub open spec fn gap_of(width: int, logo_width: int, slogan_width: int) -> int {
    let left = width - logo_width - slogan_width;
    if left >= 12 {
        12
    } else if left > 0 {
        left
    } else {
        0
    }
}

fn minus(a: usize, b: usize) -> (r: usize)
    ensures
        r == if a > b { a - b } else { 0 },
{
    if a > b {
        a - b
    } else {
        0
    }
}

/// The columns between the logo and the slogan.
pub fn slogan_gap(width: usize, logo_width: usize, slogan_width: usize) -> (r: usize)
    ensures
        r == gap_of(width as int, logo_width as int, slogan_width as int),
{
    let left: usize = minus(minus(width, logo_width), slogan_width);
    if left >= PREFERRED_SLOGAN_GAP {
        PREFERRED_SLOGAN_GAP
    } else {
        left
    }
}

/// The columns that a wave covers.
pub open spec fn is_covered(column: int, width: int, elapsed: u64) -> bool {
    elapsed < WAVE_DURATION && 0 <= column - band_left(width, elapsed) < 14
}

/// The columns that a wave covers, from the left.
pub fn rainbow_columns(width: usize, elapsed: u64) -> (r: Vec<usize>)
    requires
        1_800 * (width + 14) <= isize::MAX,
    ensures
        forall|i: int|
            0 <= i < r@.len() ==> (#[trigger] r@[i]) < width && is_covered(
                r@[i] as int,
                width as int,
                elapsed,
            ),
        forall|i: int, j: int| 0 <= i < j < r@.len() ==> (#[trigger] r@[i]) < (#[trigger] r@[j]),
        forall|c: usize|
            c < width && #[trigger] is_covered(c as int, width as int, elapsed) ==> r@.contains(c),
{
    let left: isize = rainbow_band_left(width, elapsed);
    let mut out: Vec<usize> = Vec::new();
    let mut column: usize = 0;
    while column < width
        invariant
            column <= width,
            left == band_left(width as int, elapsed),
            1_800 * (width + 14) <= isize::MAX,
            forall|i: int|
                0 <= i < out@.len() ==> (#[trigger] out@[i]) < column && is_covered(
                    out@[i] as int,
                    width as int,
                    elapsed,
                ),
            forall|i: int, j: int|
                0 <= i < j < out@.len() ==> (#[trigger] out@[i]) < (#[trigger] out@[j]),
            forall|c: usize|
                c < column && #[trigger] is_covered(c as int, width as int, elapsed) ==> out@.contains(
                    c,
                ),
        decreases width - column,
    {
        let relative: i128 = column as i128 - left as i128;
        let ghost before = out@;
        if elapsed < WAVE_DURATION && relative >= 0 && relative < 14 {
            out.push(column);
            assert(out@[before.len() as int] == column);
            assert forall|c: usize|
                c < column + 1 && #[trigger] is_covered(
                    c as int,
                    width as int,
                    elapsed,
                ) implies out@.contains(c) by {
                if c < column {
                    let k = choose|k: int| 0 <= k < before.len() && before[k] == c;
                    assert(out@[k] == c);
                }
            }
        }
        column += 1;
    }
    out
}

/// A wave covers fourteen columns at most.
pub proof fn law_wave_is_narrow(a: int, b: int, width: int, elapsed: u64)
    requires
        is_covered(a, width, elapsed),
        is_covered(b, width, elapsed),
    ensures
        -14 < a - b < 14,
{
}

/// One character of the header. Without a colour it is plain.
#[derive(Clone, Copy, Debug, PartialEq, Eq, Structural)]
pub struct Glyph {
    pub character: char,
    pub colour: Option<Colour>,
    pub bold: bool,
}

/// The logo of a class, row by row.
pub open spec fn logo(class: LayoutClass) -> Seq<Seq<char>> {
    match class {
        LayoutClass::Wide => seq![
            "██████╗ ███████╗██████╗ ██╗████████╗"@,
            "██╔══██╗██╔════╝██╔══██╗██║╚══██╔══╝"@,
            "██████╔╝█████╗  ██║  ██║██║   ██║"@,
            "██╔══██╗██╔══╝  ██║  ██║██║   ██║"@,
            "██████╔╝███████╗██████╔╝██║   ██║"@,
        ],
        LayoutClass::Medium => seq!["╔╗ ╔═╗╔╦╗╦╔╦╗"@, "╠╩╗║╣  ║║║ ║ "@, "╚═╝╚═╝═╩╝╩ ╩ "@],
        LayoutClass::Minimum | LayoutClass::TooSmall => seq!["BEDIT"@],
    }
}

/// A row of the logo; the rows below it are empty.
pub open spec fn logo_row(class: LayoutClass, index: int) -> Seq<char> {
    if 0 <= index < logo(class).len() {
        logo(class)[index]
    } else {
        ""@
    }
}

/// The greatest length of the first `n` texts.
pub open spec fn widest(rows: Seq<Seq<char>>, n: int) -> nat
    decreases n,
{
    if n <= 0 {
        0
    } else if rows[n - 1].len() > widest(rows, n - 1) {
        rows[n - 1].len()
    } else {
        widest(rows, n - 1)
    }
}

/// The width of the logo.
pub open spec fn logo_width(class: LayoutClass) -> nat {
    widest(logo(class), logo(class).len() as int)
}

/// Blanks.
pub open spec fn blanks(n: nat) -> Seq<Glyph> {
    Seq::new(n, |i: int| Glyph { character: ' ', colour: None, bold: false })
}

/// A coloured character.
pub open spec fn glyph(character: char, colour: Colour, bold: bool) -> Glyph {
    Glyph { character, colour: Some(colour), bold }
}

/// A text in the colours of the header, from a column on.
pub open spec fn coloured(
    text: Seq<char>,
    column: int,
    width: int,
    wave: Option<u64>,
    own: Colour,
    bold: bool,
) -> Seq<Glyph> {
    text.map(|i: int, c: char| glyph(c, colour_at(column + i, width, wave, own), bold))
}

/// A text cut to a width, with an ellipsis where something is missing.
pub open spec fn fitted(text: Seq<char>, width: nat) -> Seq<char> {
    if text.len() <= width {
        text
    } else if width <= 1 {
        Seq::new(width, |i: int| '…')
    } else {
        text.subrange(0, width - 1).push('…')
    }
}

/// A row of the header.
pub open spec fn header_row(class: LayoutClass, width: u16, elapsed: u64, index: int) -> Seq<Glyph> {
    let row = logo_row(class, index);
    let own = coloured(row, 0, width as int, wave_at(elapsed), Colour::Cyan, true);
    let slogan = slogan_at(elapsed);
    let lw = logo_width(class) as int;
    let gap = gap_of(width as int, lw, slogan.len() as int);
    let available = width - lw - gap;
    if index == 2 && slogan.len() > 0 && available > 0 {
        own + blanks((lw - row.len()) as nat) + blanks(gap as nat) + coloured(
            fitted(slogan, available as nat),
            lw + gap,
            width as int,
            wave_at(elapsed),
            Colour::Black,
            false,
        )
    } else {
        own
    }
}

/// A text cut to a width, with an ellipsis where something is missing.
pub fn fit(value: String, width: usize) -> (r: String)
    ensures
        r@ == fitted(value@, width as nat),
{
    let x: Vec<char> = chars_of(value.as_str());
    if x.len() <= width {
        return value;
    }
    if width == 0 {
        let r: String = String::new();
        assert(r@ =~= fitted(value@, width as nat));
        return r;
    }
    let mut out: String = crate::text::text_of(&x, 0, width - 1);
    out.push('…');
    assert(out@ =~= fitted(value@, width as nat));
    out
}

/// A text never takes more room than it is given, and one that has room stays as it is.
pub proof fn law_fitted_text_fits(text: Seq<char>, width: nat)
    ensures
        fitted(text, width).len() <= width,
        text.len() <= width ==> fitted(text, width) == text,
{
}

fn push_coloured(
    out: &mut Vec<Glyph>,
    text: &Vec<char>,
    column: i128,
    width: u16,
    wave: Option<u64>,
    own: Colour,
    bold: bool,
)
    requires
        0 <= column <= 0xffff_ffff_ffff_ffff_ffff - 0xffff_ffff_ffff_ffff,
    ensures
        final(out)@ == old(out)@ + coloured(text@, column as int, width as int, wave, own, bold),
{
    let ghost all = coloured(text@, column as int, width as int, wave, own, bold);
    let mut i: usize = 0;
    assert(old(out)@ + all.take(0) =~= old(out)@);
    while i < text.len()
        invariant
            i <= text.len(),
            0 <= column <= 0xffff_ffff_ffff_ffff_ffff - 0xffff_ffff_ffff_ffff,
            all == coloured(text@, column as int, width as int, wave, own, bold),
            all.len() == text@.len(),
            out@ == old(out)@ + all.take(i as int),
        decreases text.len() - i,
    {
        let colour: Colour = wave_colour(column + i as i128, width as usize, wave, own);
        let glyph: Glyph = Glyph { character: text[i], colour: Some(colour), bold };
        out.push(glyph);
        assert(all.take(i + 1) =~= all.take(i as int).push(all[i as int]));
        assert(out@ =~= old(out)@ + all.take(i + 1));
        i += 1;
    }
    assert(all.take(all.len() as int) =~= all);
}

fn push_blanks(out: &mut Vec<Glyph>, n: usize)
    ensures
        final(out)@ == old(out)@ + blanks(n as nat),
{
    let mut i: usize = 0;
    assert(old(out)@ + blanks(0) =~= old(out)@);
    while i < n
        invariant
            i <= n,
            out@ == old(out)@ + blanks(i as nat),
        decreases n - i,
    {
        out.push(Glyph { character: ' ', colour: None, bold: false });
        assert(out@ =~= old(out)@ + blanks((i + 1) as nat));
        i += 1;
    }
}

fn logo_rows(class: LayoutClass) -> (r: Vec<&'static str>)
    ensures
        r@.len() == logo(class).len(),
        forall|i: int| 0 <= i < r@.len() ==> (#[trigger] r@[i])@ == logo(class)[i],
{
    let mut out: Vec<&'static str> = Vec::new();
    match class {
        LayoutClass::Wide => {
            out.push("██████╗ ███████╗██████╗ ██╗████████╗");
            out.push("██╔══██╗██╔════╝██╔══██╗██║╚══██╔══╝");
            out.push("██████╔╝█████╗  ██║  ██║██║   ██║");
            out.push("██╔══██╗██╔══╝  ██║  ██║██║   ██║");
            out.push("██████╔╝███████╗██████╔╝██║   ██║");
        },
        LayoutClass::Medium => {
            out.push("╔╗ ╔═╗╔╦╗╦╔╦╗");
            out.push("╠╩╗║╣  ║║║ ║ ");
            out.push("╚═╝╚═╝═╩╝╩ ╩ ");
        },
        LayoutClass::Minimum | LayoutClass::TooSmall => {
            out.push("BEDIT");
        },
    }
    out
}

fn width_of_logo(class: LayoutClass) -> (r: usize)
    ensures
        r == logo_width(class),
        forall|i: int| 0 <= i < logo(class).len() ==> (#[trigger] logo(class)[i]).len() <= r,
{
    let rows: Vec<&'static str> = logo_rows(class);
    let mut n: usize = 0;
    let mut best: usize = 0;
    while n < rows.len()
        invariant
            n <= rows.len(),
            rows@.len() == logo(class).len(),
            forall|i: int| 0 <= i < rows@.len() ==> (#[trigger] rows@[i])@ == logo(class)[i],
            best == widest(logo(class), n as int),
            forall|i: int| 0 <= i < n ==> (#[trigger] logo(class)[i]).len() <= best,
        decreases rows.len() - n,
    {
        let count: usize = chars_of(rows[n]).len();
        assert(logo(class)[n as int] == rows@[n as int]@);
        if count > best {
            best = count;
        }
        n += 1;
    }
    best
}

/// A row of the header.
pub fn render_header_row(class: LayoutClass, width: u16, elapsed: u64, index: usize) -> (r: Vec<Glyph>)
    ensures
        r@ == header_row(class, width, elapsed, index as int),
{
    let snapshot: HeaderSnapshot = HeaderAnimationState.snapshot(elapsed);
    let rows: Vec<&'static str> = logo_rows(class);
    let row: &str = if index < rows.len() {
        rows[index]
    } else {
        ""
    };
    let lw: usize = width_of_logo(class);
    let row: Vec<char> = chars_of(row);
    assert(row@ == logo_row(class, index as int));
    let mut out: Vec<Glyph> = Vec::new();
    push_coloured(&mut out, &row, 0, width, snapshot.wave_elapsed, Colour::Cyan, true);
    let ghost own = coloured(row@, 0, width as int, wave_at(elapsed), Colour::Cyan, true);
    assert(out@ =~= own);
    let slogan: Vec<char> = chars_of(snapshot.slogan);
    if index == 2 && slogan.len() > 0 {
        let gap: usize = slogan_gap(width as usize, lw, slogan.len());
        let available: usize = minus(minus(width as usize, lw), gap);
        if available > 0 {
            proof {
                reveal_strlit("");
            }
            push_blanks(&mut out, lw - row.len());
            push_blanks(&mut out, gap);
            let text: String = fit(snapshot.slogan.to_owned(), available);
            push_coloured(
                &mut out,
                &chars_of(text.as_str()),
                lw as i128 + gap as i128,
                width,
                snapshot.wave_elapsed,
                Colour::Black,
                false,
            );
        }
    }
    out
}

/// How large a screen is: too small below the least width or height, of the least size up to the
/// next, and then medium up to the width of a wide one.
pub proof fn law_sizes_of_a_screen(width: u16, height: u16)
    ensures
        class_of(width, height) == LayoutClass::TooSmall <==> width < 38 || height < 10,
        class_of(width, height) == LayoutClass::Wide <==> width >= 80 && height >= 14,
        class_of(width, height) == LayoutClass::Medium <==> 50 <= width < 80 && height >= 14,
        header_rows(class_of(width, height)) == 1 <==> width < 38 || height < 10,
        header_rows(class_of(width, height)) == 1 || header_rows(class_of(width, height)) == 5,
{
}

/// How many rows a difference gets: three on a small screen, nine on a high one, six between.
pub proof fn law_rows_of_a_difference(class: LayoutClass, height: u16)
    ensures
        class == LayoutClass::Minimum || height < 15 ==> diff_rows(class, height) == 3,
        class != LayoutClass::Minimum && 15 <= height < 18 ==> diff_rows(class, height) == 6,
        class != LayoutClass::Minimum && height >= 18 ==> diff_rows(class, height) == 9,
{
}

/// The gap between the logo and the slogan is what is left of the width, but never more than twelve
/// columns and never less than none.
pub proof fn law_gap_is_what_is_left(width: int, logo_width: int, slogan_width: int)
    ensures
        0 <= gap_of(width, logo_width, slogan_width) <= 12,
        logo_width + slogan_width <= width ==> logo_width + gap_of(width, logo_width, slogan_width)
            + slogan_width <= width,
        logo_width + slogan_width >= width ==> gap_of(width, logo_width, slogan_width) == 0,
        logo_width + slogan_width + 12 <= width ==> gap_of(width, logo_width, slogan_width) == 12,
        width - 12 <= logo_width + slogan_width <= width ==> logo_width + gap_of(
            width,
            logo_width,
            slogan_width,
        ) + slogan_width == width,
{
}

/// A text that is too long is cut, and an ellipsis stands for what is missing; the width is used up.
pub proof fn law_cut_text_ends_with_an_ellipsis(text: Seq<char>, width: nat)
    requires
        text.len() > width,
    ensures
        fitted(text, width).len() == width,
        width > 0 ==> fitted(text, width).last() == '…',
        forall|i: int| 0 <= i < width - 1 ==> #[trigger] fitted(text, width)[i] == text[i],
{
}

/// The widest row is one of the rows, and none is wider.
pub proof fn law_widest_row(rows: Seq<Seq<char>>, n: int)
    requires
        0 <= n <= rows.len(),
    ensures
        forall|i: int| 0 <= i < n ==> (#[trigger] rows[i]).len() <= widest(rows, n),
        n > 0 ==> exists|i: int| 0 <= i < n && (#[trigger] rows[i]).len() == widest(rows, n),
        n == 0 ==> widest(rows, n) == 0,
    decreases n,
{
    if n > 0 {
        law_widest_row(rows, n - 1);
        if rows[n - 1].len() > widest(rows, n - 1) {
            assert(rows[n - 1].len() == widest(rows, n));
        } else if n == 1 {
            assert(rows[0].len() == 0);
        } else {
            let i = choose|i: int| 0 <= i < n - 1 && (#[trigger] rows[i]).len() == widest(
                rows,
                n - 1,
            );
            assert(rows[i].len() == widest(rows, n));
        }
    }
}

/// The colour of a column is its own where no wave is, and that of the wave where it is covered; the
/// colours of a wave come in their order and again after seven columns.
pub proof fn law_wave_colours_what_it_covers(column: int, width: int, elapsed: u64, own: Colour)
    ensures
        colour_at(column, width, None, own) == own,
        !is_covered(column, width, elapsed) ==> colour_at(column, width, Some(elapsed), own) == own,
        is_covered(column, width, elapsed) ==> {
            let colour = colour_at(column, width, Some(elapsed), own);
            let place = column - band_left(width, elapsed);
            &&& place == 0 || place == 7 ==> colour == Colour::Red
            &&& place == 1 || place == 8 ==> colour == Colour::LightRed
            &&& place == 2 || place == 9 ==> colour == Colour::Yellow
            &&& place == 3 || place == 10 ==> colour == Colour::Green
            &&& place == 4 || place == 11 ==> colour == Colour::Cyan
            &&& place == 5 || place == 12 ==> colour == Colour::Blue
            &&& place == 6 || place == 13 ==> colour == Colour::Magenta
        },
{
}

/// A row of the header shows its row of the logo from the first column on, bold; the row with the
/// slogan shows the slogan behind the logo and the gap, as far as the width goes.
pub proof fn law_row_of_the_header(class: LayoutClass, width: u16, elapsed: u64, index: int, k: int)
    ensures
        ({
            let row = header_row(class, width, elapsed, index);
            let own = logo_row(class, index);
            let slogan = slogan_at(elapsed);
            let start = logo_width(class) + gap_of(
                width as int,
                logo_width(class) as int,
                slogan.len() as int,
            );
            &&& 0 <= k < own.len() ==> k < row.len() && row[k].character == own[k] && row[k].bold
            &&& index != 2 ==> row.len() == own.len()
            &&& index == 2 && slogan.len() > 0 && start + slogan.len() <= width && 0 <= k
                < slogan.len() && own.len() <= logo_width(class) ==> start + k < row.len()
                && row[start + k].character == slogan[k]
        }),
{
}

} // verus!
