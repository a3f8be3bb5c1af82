use drawille::braille::{dot, glyph_of, BRAILLE_BASE, PIXEL_MAP};
use drawille::text::join;
use drawille::Canvas;

#[test]
fn dot_follows_the_table() {
    assert_eq!(PIXEL_MAP, [[0x01, 0x08], [0x02, 0x10], [0x04, 0x20], [0x40, 0x80]]);
    assert_eq!(dot(0, 0), 0x01);
    assert_eq!(dot(1, 0), 0x08);
    assert_eq!(dot(0, 1), 0x02);
    assert_eq!(dot(1, 1), 0x10);
    assert_eq!(dot(0, 2), 0x04);
    assert_eq!(dot(1, 2), 0x20);
    assert_eq!(dot(0, 3), 0x40);
    assert_eq!(dot(1, 3), 0x80);
}

#[test]
fn dot_repeats_in_every_cell() {
    for x in 0..10 {
        for y in 0..10 {
            assert_eq!(dot(x, y), dot(x % 2, y % 4));
            assert_eq!(dot(x, y), PIXEL_MAP[y % 4][x % 2]);
        }
    }
    assert_eq!(dot(usize::MAX, usize::MAX), 0x80);
}

#[test]
fn glyph_of_the_empty_mask_is_a_space() {
    assert_eq!(glyph_of(0), ' ');
}

#[test]
fn glyph_of_a_mask_is_its_braille_pattern() {
    assert_eq!(BRAILLE_BASE, 0x2800);
    assert_eq!(glyph_of(0x01), '\u{2801}');
    assert_eq!(glyph_of(0x47), '\u{2847}');
    assert_eq!(glyph_of(0x87), '\u{2887}');
    assert_eq!(glyph_of(0xFF), '\u{28FF}');
    for mask in 1..=255u8 {
        assert_eq!(glyph_of(mask) as u32, 0x2800 + mask as u32);
    }
}

#[test]
fn join_puts_a_line_feed_between_rows() {
    assert_eq!(join(&vec![]), "");
    assert_eq!(join(&vec!["ab".to_string()]), "ab");
    assert_eq!(join(&vec!["ab".to_string(), "c".to_string()]), "ab\nc");
    assert_eq!(
        join(&vec!["a".to_string(), "".to_string(), "b".to_string()]),
        "a\n\nb"
    );
    assert_eq!(join(&vec!["".to_string(), "".to_string()]), "\n");
    assert_eq!(join(&vec!["".to_string()]), "");
}

#[test]
fn frame_of_one_dot_in_a_canvas_of_one_declared_cell() {
    let mut canvas = Canvas::new(2, 4);
    canvas.set(0, 0);
    assert_eq!(canvas.frame(), "\u{2801} \n  ");
    assert_eq!(canvas.frame().trim(), "\u{2801}");
}

#[test]
fn frame_of_one_dot_in_a_canvas_of_no_declared_size() {
    let mut canvas = Canvas::new(0, 0);
    canvas.set(0, 0);
    assert_eq!(canvas.frame(), "\u{2801}");
    assert_eq!(canvas.rows(), vec!["\u{2801}".to_string()]);
}

#[test]
fn frame_of_each_dot() {
    for x in 0..2 {
        for y in 0..4 {
            let mut canvas = Canvas::new(0, 0);
            canvas.set(x, y);
            let pattern = char::from_u32(0x2800 + PIXEL_MAP[y][x] as u32).unwrap();
            assert_eq!(canvas.frame(), pattern.to_string());
        }
    }
}

#[test]
fn frame_of_a_full_cell() {
    let mut canvas = Canvas::new(0, 0);
    for x in 0..2 {
        for y in 0..4 {
            canvas.set(x, y);
        }
    }
    assert_eq!(canvas.frame(), "\u{28FF}");
}

#[test]
fn frame_has_no_trailing_line_feed() {
    let canvas = Canvas::new(4, 12);
    assert_eq!(canvas.frame(), "   \n   \n   \n   ");
    assert!(!canvas.frame().ends_with('\n'));
}

#[test]
fn frame_is_the_rows_joined() {
    let mut canvas = Canvas::new(4, 8);
    canvas.line(0, 0, 7, 11);
    assert_eq!(canvas.frame(), canvas.rows().join("\n"));
    assert_eq!(canvas.frame(), join(&canvas.rows()));
}

#[test]
fn frame_twice_is_the_same_text() {
    let mut canvas = Canvas::new(10, 10);
    canvas.line(0, 9, 19, 0);
    canvas.toggle(3, 3);
    canvas.unset(40, 2);
    let first = canvas.frame();
    let second = canvas.frame();
    assert_eq!(first, second);
    assert_eq!(canvas.rows(), canvas.rows());
}

#[test]
fn frame_never_holds_the_blank_braille_pattern() {
    let mut canvas = Canvas::new(6, 6);
    canvas.set(1, 1);
    canvas.unset(1, 1);
    canvas.toggle(4, 4);
    canvas.toggle(4, 4);
    canvas.set(9, 9);
    for c in canvas.frame().chars() {
        assert!(c == ' ' || c == '\n' || ('\u{2801}'..='\u{28FF}').contains(&c));
    }
    assert!(canvas.frame().contains('\u{2810}'));
}

#[test]
fn rows_of_a_new_canvas_are_spaces() {
    assert_eq!(Canvas::new(0, 0).rows(), vec![" ".to_string()]);
    assert_eq!(
        Canvas::new(2, 4).rows(),
        vec!["  ".to_string(), "  ".to_string()]
    );
    assert_eq!(
        Canvas::new(7, 9).rows(),
        vec!["    ".to_string(), "    ".to_string(), "    ".to_string()]
    );
}

#[test]
fn rows_after_clear_are_spaces_of_the_declared_size() {
    let mut canvas = Canvas::new(4, 8);
    canvas.set(10, 0);
    canvas.set(0, 30);
    assert_eq!(canvas.rows().len(), 8);
    assert_eq!(canvas.rows()[0].chars().count(), 6);
    canvas.clear();
    assert_eq!(
        canvas.rows(),
        vec!["   ".to_string(), "   ".to_string(), "   ".to_string()]
    );
    assert_eq!(canvas.rows(), Canvas::new(4, 8).rows());
}

#[test]
fn rows_grow_with_the_stored_cells() {
    let mut canvas = Canvas::new(2, 4);
    canvas.set(6, 0);
    assert_eq!(
        canvas.rows(),
        vec!["   \u{2801}".to_string(), "    ".to_string()]
    );
    canvas.set(3, 9);
    assert_eq!(
        canvas.rows(),
        vec![
            "   \u{2801}".to_string(),
            "    ".to_string(),
            " \u{2810}  ".to_string()
        ]
    );
}

#[test]
fn rows_count_a_stored_empty_cell() {
    let mut canvas = Canvas::new(0, 0);
    canvas.unset(4, 8);
    assert!(!canvas.get(4, 8));
    assert_eq!(
        canvas.rows(),
        vec!["   ".to_string(), "   ".to_string(), "   ".to_string()]
    );
    assert_eq!(canvas.frame(), "   \n   \n   ");
}

#[test]
fn rows_show_each_cell_in_its_column_and_row() {
    let mut canvas = Canvas::new(0, 0);
    canvas.set(3, 5);
    assert_eq!(
        canvas.rows(),
        vec!["  ".to_string(), " \u{2810}".to_string()]
    );
    assert_eq!(canvas.frame(), "  \n \u{2810}");
}

#[test]
fn rows_combine_the_dots_of_a_cell() {
    let mut canvas = Canvas::new(0, 0);
    canvas.set(0, 0);
    canvas.set(1, 0);
    canvas.set(0, 3);
    assert_eq!(canvas.frame(), "\u{2849}");
    canvas.unset(1, 0);
    assert_eq!(canvas.frame(), "\u{2841}");
    canvas.toggle(1, 3);
    assert_eq!(canvas.frame(), "\u{28C1}");
    canvas.toggle(0, 0);
    assert_eq!(canvas.frame(), "\u{28C0}");
}
