use bedit::header::{
    diff_panel_height, fit, header_colour, header_height, layout_class, rainbow_band_left,
    rainbow_colour, rainbow_columns, render_header_row, slogan_gap, Colour, HeaderAnimationState,
    LayoutClass, PREFERRED_SLOGAN_GAP, RAINBOW_BAND_WIDTH, WAVE_DURATION,
};

fn secs(n: u64) -> u64 {
    n * 1_000_000_000
}

fn millis(n: u64) -> u64 {
    n * 1_000_000
}

#[test]
fn normal_diff_panel_is_three_rows_taller_without_squeezing_small_layouts() {
    assert_eq!(diff_panel_height(LayoutClass::Wide, 30), 9);
    assert_eq!(diff_panel_height(LayoutClass::Medium, 18), 9);
    assert_eq!(diff_panel_height(LayoutClass::Medium, 14), 3);
    assert_eq!(diff_panel_height(LayoutClass::Minimum, 12), 3);
}

#[test]
fn header_animation_reveals_once_waves_and_has_bounded_deadlines() {
    let animation = HeaderAnimationState;
    assert_eq!(animation.snapshot(0).slogan, "");
    assert_eq!(animation.snapshot(secs(2)).slogan, "BACKUPS");
    assert_eq!(animation.snapshot(secs(4)).slogan, "BACKUPS SAVE");
    assert_eq!(animation.snapshot(secs(6)).slogan, "BACKUPS SAVE LIVES");
    assert!(animation.snapshot(millis(6_500)).wave_active);
    assert!(!animation.snapshot(secs(8)).wave_active);
    assert!(animation.snapshot(millis(67_900)).wave_active);
    assert_eq!(
        animation.snapshot(millis(67_900)).slogan,
        "BACKUPS SAVE LIVES"
    );
    assert_eq!(header_height(LayoutClass::Wide), 5);
    assert_eq!(header_height(LayoutClass::Medium), 5);
    assert_eq!(header_height(LayoutClass::Minimum), 5);
    assert!(animation.next_delay(secs(8)) > secs(50));
    assert!(animation.next_delay(millis(6_500)) <= millis(80));
}

#[test]
fn rainbow_band_progress_is_frame_deterministic() {
    let animation = HeaderAnimationState;
    let first = animation.snapshot(millis(6_060));
    let second = animation.snapshot(millis(6_120));
    assert_eq!(first.wave_elapsed, Some(millis(60)));
    assert_eq!(second.wave_elapsed, Some(millis(120)));
    assert!(
        rainbow_band_left(100, first.wave_elapsed.unwrap())
            < rainbow_band_left(100, second.wave_elapsed.unwrap())
    );
    assert_ne!(rainbow_colour(0), rainbow_colour(1));
}

#[test]
fn travelling_rainbow_is_a_bounded_left_to_right_band() {
    let width = 100;
    let early = millis(180);
    let middle = millis(900);
    let late = millis(1_620);

    let early_columns = rainbow_columns(width, early);
    let middle_columns = rainbow_columns(width, middle);
    let late_columns = rainbow_columns(width, late);
    assert!(!early_columns.is_empty());
    assert!(early_columns.len() <= RAINBOW_BAND_WIDTH);
    assert!(middle_columns.len() <= RAINBOW_BAND_WIDTH);
    assert!(late_columns.len() <= RAINBOW_BAND_WIDTH);
    assert!(early_columns.iter().max() < middle_columns.iter().min());
    assert!(middle_columns.iter().max() < late_columns.iter().min());

    let middle_left = *middle_columns.iter().min().unwrap();
    let middle_right = *middle_columns.iter().max().unwrap();
    assert_eq!(
        header_colour(0, width, Some(middle), Colour::Cyan),
        Colour::Cyan
    );
    assert_ne!(
        header_colour(middle_left, width, Some(middle), Colour::Cyan),
        Colour::Cyan
    );
    assert_eq!(
        header_colour(middle_right + 1, width, Some(middle), Colour::Cyan),
        Colour::Cyan
    );
    assert_eq!(header_colour(99, width, None, Colour::Black), Colour::Black);
    assert!(rainbow_columns(width, WAVE_DURATION).is_empty());
}

#[test]
fn wide_slogan_uses_twelve_columns_and_narrow_spacing_never_overflows() {
    assert_eq!(slogan_gap(110, 36, 18), 12);
    for width in [42, 60, 69] {
        let gap = slogan_gap(width, 40, 18);
        assert!(40 + gap <= width);
        assert!(gap <= 12);
    }
}

#[test]
fn periodic_wave_keeps_revealed_slogan_and_uses_same_progress() {
    let animation = HeaderAnimationState;
    let initial = animation.snapshot(millis(6_600));
    let periodic = animation.snapshot(millis(68_400));
    assert_eq!(initial.slogan, "BACKUPS SAVE LIVES");
    assert_eq!(periodic.slogan, "BACKUPS SAVE LIVES");
    assert_eq!(initial.wave_elapsed, periodic.wave_elapsed);
}

#[test]
fn the_size_of_the_terminal_decides_the_layout() {
    assert_eq!(layout_class(100, 30), LayoutClass::Wide);
    assert_eq!(layout_class(60, 18), LayoutClass::Medium);
    assert_eq!(layout_class(42, 12), LayoutClass::Minimum);
    assert_eq!(layout_class(30, 7), LayoutClass::TooSmall);
}

#[test]
fn header_rows_hold_logo_gap_and_slogan() {
    let row = render_header_row(LayoutClass::Wide, 110, secs(8), 2);
    let text: String = row.iter().map(|glyph| glyph.character).collect();
    let start = text.find("BACKUPS SAVE LIVES").unwrap();
    let column = text[..start].chars().count();
    assert_eq!(column, 36 + PREFERRED_SLOGAN_GAP);
    assert!(row[column..column + 18]
        .iter()
        .all(|glyph| glyph.colour == Some(Colour::Black)));
    let waving = render_header_row(LayoutClass::Wide, 110, millis(6_900), 2);
    assert!(waving[column..column + 18]
        .iter()
        .any(|glyph| glyph.colour != Some(Colour::Black)));
}

#[test]
fn text_is_cut_to_its_width() {
    assert_eq!(fit("short".into(), 10), "short");
    let cut = fit("a long line of text".into(), 6);
    assert_eq!(cut.chars().count(), 6);
}

#[test]
fn the_slogan_only_grows_and_waves_repeat_in_every_round() {
    let animation = HeaderAnimationState;
    let times = [0, millis(1_999), secs(2), secs(5), secs(6), secs(1_000), u64::MAX];
    for pair in times.windows(2) {
        let later = animation.snapshot(pair[1]).slogan;
        assert!(later.starts_with(animation.snapshot(pair[0]).slogan));
    }
    let cycle = millis(61_800);
    let last = (u64::MAX - millis(67_800)) / cycle - 1;
    for round in [0, 1, 7, 2_000_000, last] {
        let start = millis(67_800) + round * cycle;
        assert_eq!(
            animation.snapshot(start + millis(300) + 17).wave_elapsed,
            Some(millis(300))
        );
        assert_eq!(animation.snapshot(start + WAVE_DURATION).wave_elapsed, None);
        assert_eq!(animation.snapshot(start + cycle - 1).wave_elapsed, None);
        assert_eq!(animation.next_delay(start + secs(2)), cycle - secs(2));
    }
    assert_eq!(
        animation.snapshot(secs(6) + millis(300) + 17).wave_elapsed,
        Some(millis(300) + 17)
    );
}
