use parcad::render::{edge, pcg2d, top_left_bias, ImageFault, Rgb};

#[test]
fn a_new_image_is_one_colour_and_a_pixel_set_reads_back() {
    let mut img = Rgb::new(4, 3, [1, 2, 3]);
    assert_eq!(img.data.len(), 36);
    assert_eq!(img.get(3, 2), [1, 2, 3]);
    img.set(2, 1, [9, 8, 7]);
    assert_eq!(img.get(2, 1), [9, 8, 7]);
    assert_eq!(img.get(1, 2), [1, 2, 3]);
    img.set(10, 10, [0, 0, 0]);
    assert_eq!(img.data.len(), 36, "a pixel off the image is ignored");
}

#[test]
fn a_rect_is_clipped_and_a_blit_lands_where_asked() {
    let mut img = Rgb::new(5, 5, [0, 0, 0]);
    img.rect(3, 3, 9, 9, [255, 0, 0]);
    assert_eq!(img.get(4, 4), [255, 0, 0]);
    assert_eq!(img.get(2, 4), [0, 0, 0]);
    let stamp = Rgb::new(2, 2, [0, 255, 0]);
    img.blit(&stamp, 0, 1);
    assert_eq!(img.get(1, 2), [0, 255, 0]);
    assert_eq!(img.get(0, 0), [0, 0, 0]);
    assert_eq!(img.get(2, 2), [0, 0, 0]);
}

#[test]
fn downsampling_averages_each_block() {
    let mut img = Rgb::new(4, 2, [0, 0, 0]);
    img.set(0, 0, [200, 100, 40]);
    img.set(1, 1, [100, 0, 40]);
    let small = img.downsample(2);
    assert_eq!((small.width, small.height), (2, 1));
    assert_eq!(small.get(0, 0), [75, 25, 20]);
    assert_eq!(small.get(1, 0), [0, 0, 0]);
    let same = img.downsample(1);
    assert_eq!(same.data, img.data);
}

#[test]
fn an_image_encodes_as_png_and_webp() {
    let img = Rgb::new(8, 8, [10, 20, 30]);
    let png = match img.to_png() {
        Ok(b) => b,
        Err(_) => panic!("png"),
    };
    assert_eq!(&png[1..4], b"PNG");
    let webp = match img.to_webp() {
        Ok(b) => b,
        Err(_) => panic!("webp"),
    };
    assert_eq!(&webp[0..4], b"RIFF");
    assert_eq!(&webp[8..12], b"WEBP");
    let short = Rgb { width: 8, height: 8, data: vec![0; 10] };
    assert!(matches!(short.to_png(), Err(ImageFault::WrongSize { width: 8, height: 8 })));
}

#[test]
fn the_edge_function_and_the_fill_rule() {
    assert_eq!(edge([0, 0], [10, 0], [0, 10]), 100);
    assert_eq!(edge([0, 0], [10, 0], [5, -3]), -30);
    assert_eq!(top_left_bias([0, 0], [10, 0]), 0);
    assert_eq!(top_left_bias([10, 0], [0, 0]), -1);
    assert_eq!(top_left_bias([0, 10], [0, 0]), 0);
}

#[test]
fn the_hash_is_the_same_on_every_run() {
    assert_eq!(pcg2d(0, 0), 417608103);
    assert_eq!(pcg2d(1, 2), 45825804);
    assert_eq!(pcg2d(640, 480), 3466914849);
}

use parcad::font::{Font, Glyph};
use parcad::render::{caption, contact_sheet, label_panel, label_scale, BACKGROUND, GUTTER, LABEL_INK, LABEL_PLATE};
use parcad::service::View;

fn tiny_font() -> Font {
    // A 2 x 2 font with one blank column between characters: `I` is its
    // left column, `-` its bottom row.
    Font {
        width: 2,
        height: 2,
        tracking: 1,
        glyphs: vec![
            Glyph { ch: 'I', rows: vec![vec![true, false], vec![true, false]] },
            Glyph { ch: '-', rows: vec![vec![false, false], vec![true, true]] },
        ],
    }
}

#[test]
fn text_inks_each_cell_at_its_scale_and_skips_unknown_characters() {
    let font = tiny_font();
    assert!(font.pixel('I', 0, 1) && !font.pixel('I', 1, 1) && !font.pixel('?', 0, 0));
    let mut img = Rgb::new(20, 6, [0, 0, 0]);
    img.text(&font, 1, 1, "I?-", 2, [9, 9, 9]);
    // `I` at x 1..3, rows 1..5.
    assert_eq!(img.get(1, 1), [9, 9, 9]);
    assert_eq!(img.get(2, 4), [9, 9, 9]);
    assert_eq!(img.get(3, 1), [0, 0, 0]);
    // `?` has no glyph: its cell at x 7 stays dark.
    assert_eq!(img.get(7, 1), [0, 0, 0]);
    // `-` starts two advances on, at x 13, on its bottom row only.
    assert_eq!(img.get(13, 3), [9, 9, 9]);
    assert_eq!(img.get(16, 4), [9, 9, 9]);
    assert_eq!(img.get(13, 1), [0, 0, 0]);
}

#[test]
fn a_label_sits_on_its_plate() {
    let font = tiny_font();
    let mut img = Rgb::new(20, 12, [0, 0, 0]);
    img.label(&font, 0, 0, "I", 1, [255, 255, 255], [50, 50, 50]);
    // Plate: 1 advance of 3 plus 4 of margin wide, 2 plus 4 tall.
    assert_eq!(img.get(0, 0), [50, 50, 50]);
    assert_eq!(img.get(6, 5), [50, 50, 50]);
    assert_eq!(img.get(7, 0), [0, 0, 0]);
    assert_eq!(img.get(0, 6), [0, 0, 0]);
    // Ink inside the margin.
    assert_eq!(img.get(2, 2), [255, 255, 255]);
    assert_eq!(img.get(2, 3), [255, 255, 255]);
    assert_eq!(img.get(3, 2), [50, 50, 50]);
}

#[test]
fn a_contact_sheet_places_seven_views_four_across() {
    let panels: Vec<Rgb> = (0..7u8).map(|i| Rgb::new(3, 3, [i, i, i])).collect();
    let sheet = contact_sheet(&panels, 3);
    assert_eq!((sheet.image.width, sheet.image.height), (22, 12));
    assert_eq!(sheet.panels.len(), 7);
    assert!(sheet.panels[4].view == View::Back);
    assert_eq!((sheet.panels[5].x, sheet.panels[5].y, sheet.panels[5].size), (7, 7, 3));
    assert_eq!(sheet.image.get(2, 2), [0, 0, 0]);
    assert_eq!(sheet.image.get(8, 8), [5, 5, 5]);
    assert_eq!(sheet.image.get(19, 2), [3, 3, 3]);
    assert_eq!(sheet.image.get(17, 7), BACKGROUND);
    assert_eq!(sheet.image.get(1, 1), GUTTER);
    assert_eq!(sheet.image.get(5, 5), GUTTER);
}

#[test]
fn a_panel_is_captioned_with_its_view_in_capitals() {
    assert_eq!(caption(View::Iso), "ISO");
    assert_eq!(caption(View::Bottom), "BOTTOM");
    assert_eq!(label_scale(100), 1);
    assert_eq!(label_scale(320), 2);
    assert_eq!(label_scale(479), 2);

    // A font whose only glyph is a full block for `I`, so "ISO" inks its
    // first cell and leaves the rest of the plate bare.
    let font = Font { width: 1, height: 1, tracking: 0, glyphs: vec![Glyph { ch: 'I', rows: vec![vec![true]] }] };
    let mut panel = Rgb::new(20, 20, [0, 0, 0]);
    label_panel(&mut panel, &font, View::Iso, 100);
    // Plate from (3, 3): three characters wide plus four of margin, one tall plus four.
    assert_eq!(panel.get(3, 3), LABEL_PLATE);
    assert_eq!(panel.get(5, 5), LABEL_INK);
    assert_eq!(panel.get(6, 5), LABEL_PLATE);
    assert_eq!(panel.get(9, 7), LABEL_PLATE);
    assert_eq!(panel.get(10, 7), [0, 0, 0]);
    assert_eq!(panel.get(2, 3), [0, 0, 0]);
    assert_eq!(panel.get(3, 8), [0, 0, 0]);
}
