use statusbar::format::{apply_sequence, Color, Format, Fraction};
use statusbar::text::decimal_text;

fn swap_at(num: u64, den: u64, s: &str) -> String {
    Format::SwapAt(Fraction::new(num, den)).apply(String::from(s))
}

#[test]
fn every_color_has_its_code() {
    assert_eq!(Color::Black.hex(), "#2c292d");
    assert_eq!(Color::Red.hex(), "#ff6188");
    assert_eq!(Color::Green.hex(), "#a9dc76");
    assert_eq!(Color::Blue.hex(), "#78dce8");
    assert_eq!(Color::Purple.hex(), "#ab9df2");
    assert_eq!(Color::Orange.hex(), "#fc9867");
    assert_eq!(Color::White.hex(), "#fdf9f3");
}

#[test]
fn every_code_has_seven_characters() {
    let all = [
        Color::Black,
        Color::Red,
        Color::Green,
        Color::Blue,
        Color::Purple,
        Color::Orange,
        Color::White,
    ];
    for c in all.iter() {
        assert_eq!(c.hex().chars().count(), 7);
        assert!(c.hex().starts_with('#'));
    }
}

#[test]
fn foreground_wraps_in_colour_pair() {
    let out = Format::Foreground(Color::Red).apply(String::from("abc"));
    assert_eq!(out, "%{F#ff6188}abc%{F-}");
}

#[test]
fn background_wraps_in_colour_pair() {
    let out = Format::Background(Color::Blue).apply(String::from("abc"));
    assert_eq!(out, "%{B#78dce8}abc%{B-}");
}

#[test]
fn underline_and_overline_wrap_in_their_markers() {
    assert_eq!(Format::Underline.apply(String::from("abc")), "%{+u}abc%{-u}");
    assert_eq!(Format::Overline.apply(String::from("abc")), "%{+o}abc%{-o}");
}

#[test]
fn swap_wraps_in_swap_markers() {
    assert_eq!(Format::Swap.apply(String::from("abc")), "%{R}abc%{R}");
    assert_eq!(Format::Swap.apply(String::new()), "%{R}%{R}");
}

#[test]
fn swap_at_zero_swaps_everything() {
    let s = "0123456789";
    assert_eq!(swap_at(0, 1, s), Format::Swap.apply(String::from(s)));
    assert_eq!(swap_at(0, 1, s), "%{R}0123456789%{R}");
    assert_eq!(swap_at(0, 100, s), "%{R}0123456789%{R}");
}

#[test]
fn swap_at_one_leaves_the_text_before_an_empty_pair() {
    assert_eq!(swap_at(1, 1, "0123456789"), "0123456789%{R}%{R}");
    assert_eq!(swap_at(100, 100, "abc"), "abc%{R}%{R}");
}

#[test]
fn swap_at_half_of_ten_splits_after_five() {
    assert_eq!(swap_at(1, 2, "0123456789"), "01234%{R}56789%{R}");
    assert_eq!(swap_at(50, 100, "0123456789"), "01234%{R}56789%{R}");
}

#[test]
fn swap_at_rounds_to_the_nearest_character() {
    assert_eq!(swap_at(1, 3, "0123456789"), "012%{R}3456789%{R}");
    assert_eq!(swap_at(2, 3, "0123456789"), "0123456%{R}789%{R}");
    assert_eq!(swap_at(1, 4, "0123456789"), "012%{R}3456789%{R}");
    assert_eq!(swap_at(24, 100, "0123456789"), "01%{R}23456789%{R}");
    assert_eq!(swap_at(4, 100, "0123456789"), "%{R}0123456789%{R}");
    assert_eq!(swap_at(5, 100, "0123456789"), "0%{R}123456789%{R}");
    assert_eq!(swap_at(96, 100, "0123456789"), "0123456789%{R}%{R}");
}

#[test]
fn swap_at_clamps_fractions_above_one() {
    assert_eq!(swap_at(3, 2, "0123456789"), "0123456789%{R}%{R}");
    assert_eq!(swap_at(u64::MAX, 1, "abc"), "abc%{R}%{R}");
    assert_eq!(swap_at(u64::MAX, u64::MAX, "abc"), "abc%{R}%{R}");
    assert_eq!(swap_at(u64::MAX - 1, u64::MAX, "abcd"), "abcd%{R}%{R}");
}

#[test]
fn swap_at_with_zero_denominator() {
    assert_eq!(swap_at(0, 0, "abc"), "%{R}abc%{R}");
    assert_eq!(swap_at(7, 0, "abc"), "abc%{R}%{R}");
}

#[test]
fn swap_at_counts_characters_not_bytes() {
    assert_eq!(swap_at(1, 2, "äöüß"), "äö%{R}üß%{R}");
    assert_eq!(swap_at(1, 4, "日本語テキスト文"), "日本%{R}語テキスト文%{R}");
    assert_eq!(swap_at(1, 1, "äöüß"), "äöüß%{R}%{R}");
}

#[test]
fn swap_at_on_empty_text() {
    assert_eq!(swap_at(1, 2, ""), "%{R}%{R}");
    assert_eq!(swap_at(0, 1, ""), "%{R}%{R}");
    assert_eq!(swap_at(1, 1, ""), "%{R}%{R}");
}

#[test]
fn share_of_matches_rounding() {
    assert_eq!(Fraction::new(1, 2).share_of(10), 5);
    assert_eq!(Fraction::new(1, 2).share_of(11), 6);
    assert_eq!(Fraction::new(1, 2).share_of(1), 1);
    assert_eq!(Fraction::new(49, 100).share_of(1), 0);
    assert_eq!(Fraction::new(73, 100).share_of(14), 10);
    assert_eq!(Fraction::new(2, 1).share_of(14), 14);
    assert_eq!(Fraction::new(0, 5).share_of(14), 0);
    assert_eq!(Fraction::new(u64::MAX - 1, u64::MAX).share_of(usize::MAX), usize::MAX - 1);
    assert_eq!(Fraction::new(u64::MAX, u64::MAX).share_of(usize::MAX), usize::MAX);
    assert_eq!(Fraction::new(1, u64::MAX).share_of(usize::MAX), 1);
}

#[test]
fn percent_rounds_down_and_stops_at_255() {
    assert_eq!(Fraction::new(73, 100).percent(), 73);
    assert_eq!(Fraction::new(739_999, 1_000_000).percent(), 73);
    assert_eq!(Fraction::new(1, 1).percent(), 100);
    assert_eq!(Fraction::new(0, 1).percent(), 0);
    assert_eq!(Fraction::new(3, 1).percent(), 255);
    assert_eq!(Fraction::new(255, 100).percent(), 255);
    assert_eq!(Fraction::new(0, 0).percent(), 0);
    assert_eq!(Fraction::new(1, 0).percent(), 255);
    assert_eq!(Fraction::new(u64::MAX, 1).percent(), 255);
}

#[test]
fn is_above_compares_strictly() {
    assert!(Fraction::new(41, 100).is_above(40));
    assert!(!Fraction::new(40, 100).is_above(40));
    assert!(Fraction::new(400_001, 1_000_000).is_above(40));
    assert!(!Fraction::new(2, 10).is_above(20));
    assert!(!Fraction::new(0, 0).is_above(0));
    assert!(Fraction::new(1, 0).is_above(255));
    assert!(Fraction::new(u64::MAX, u64::MAX).is_above(99));
    assert!(!Fraction::new(u64::MAX, u64::MAX).is_above(100));
}

#[test]
fn sequence_is_a_left_fold() {
    let d0 = Format::SwapAt(Fraction::new(1, 2));
    let d1 = Format::Foreground(Color::Black);
    let d2 = Format::Background(Color::Green);
    let folded = d2.apply(d1.apply(d0.apply(String::from("abcd"))));
    assert_eq!(apply_sequence(String::from("abcd"), &[d0, d1, d2]), folded);
    assert_eq!(folded, "%{B#a9dc76}%{F#2c292d}ab%{R}cd%{R}%{F-}%{B-}");
}

#[test]
fn empty_sequence_changes_nothing() {
    assert_eq!(apply_sequence(String::from("abcd"), &[]), "abcd");
}

#[test]
fn sequence_order_matters() {
    let gauge = Format::SwapAt(Fraction::new(1, 2));
    let back = Format::Background(Color::Red);
    let gauge_first = apply_sequence(String::from("abcd"), &[gauge, back]);
    let back_first = apply_sequence(String::from("abcd"), &[back, gauge]);
    assert_eq!(gauge_first, "%{B#ff6188}ab%{R}cd%{R}%{B-}");
    // The gauge now counts the characters of the colour markers too.
    assert_eq!(back_first, "%{B#ff6188%{R}}abcd%{B-}%{R}");
    assert_ne!(gauge_first, back_first);
}

#[test]
fn decimal_text_writes_numbers() {
    assert_eq!(decimal_text(0), "0");
    assert_eq!(decimal_text(7), "7");
    assert_eq!(decimal_text(10), "10");
    assert_eq!(decimal_text(255), "255");
    assert_eq!(decimal_text(1234567890), "1234567890");
    assert_eq!(decimal_text(u64::MAX), "18446744073709551615");
}
