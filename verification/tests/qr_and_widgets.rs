use raxon::style::Palette;
use raxon::qr::{format_bits, qr_matrix, quiet_zone_rows, QrError};
use raxon::widgets::{color_to_argb, color_to_css, AndroidViewClass, Color, DomElementKind, WidgetKind};

#[test]
fn format_bits_match_level_l_mask_zero() {
    assert_eq!(format_bits(0), 0x77C4);
}

#[test]
fn rtylr_url_fits_in_version_one_matrix() {
    let matrix = qr_matrix("https://rtylr.com").expect("url should encode");

    assert_eq!(matrix.size(), 21);
    assert!(matrix.get(0, 0));
    assert!(matrix.get(3, 3));
    assert!(matrix.get(20, 0));
    assert!(matrix.get(8, 13), "dark module is present");
}

#[test]
fn longer_payloads_select_larger_versions() {
    let matrix = qr_matrix("https://rtylr.com/orders/receipt/12345").expect("fits v3");

    assert_eq!(matrix.size(), 29);
}

#[test]
fn overlarge_payloads_are_rejected() {
    let data = "x".repeat(79);

    assert_eq!(qr_matrix(&data), Err(QrError::DataTooLong));
}

#[test]
fn largest_payload_of_version_four_is_accepted() {
    let data = "x".repeat(78);
    assert_eq!(qr_matrix(&data).expect("fits v4").size(), 33);
}

#[test]
fn maps_widget_kinds_to_dom_elements() {
    let slider = DomElementKind::from_widget_kind(WidgetKind::Slider);
    assert_eq!(slider.tag_name(), "input");
    assert_eq!(slider.input_type(), Some("range"));

    let text = DomElementKind::from_widget_kind(WidgetKind::Text);
    assert_eq!(text.tag_name(), "span");
    assert_eq!(text.input_type(), None);
}

#[test]
fn maps_widget_kinds_to_android_classes() {
    assert_eq!(AndroidViewClass::from_widget_kind(WidgetKind::Text).class_name(), "android.widget.TextView");
    assert_eq!(
        AndroidViewClass::from_widget_kind(WidgetKind::LazyList).class_name(),
        "androidx.recyclerview.widget.RecyclerView"
    );
}

#[test]
fn color_converts_to_css_and_argb() {
    assert_eq!(color_to_css(Color::rgba(10, 20, 30, 128)), "rgba(10, 20, 30, 0.502)");
    assert_eq!(color_to_argb(Color::rgba(0x11, 0x22, 0x33, 0x44)), 0x4411_2233);
}

#[test]
fn css_alpha_matches_float_formatting_for_every_alpha() {
    for a in 0..=255u8 {
        let expected = format!("rgba(1, 2, 3, {:.3})", a as f32 / 255.0);
        assert_eq!(color_to_css(Color::rgba(1, 2, 3, a)), expected);
    }
}

#[test]
fn built_in_palettes_hold_their_colour_roles() {
    let light = Palette::light();
    assert_eq!(light.primary, Color::rgb(40, 90, 220));
    assert_eq!(light.on_primary, Color::rgba(255, 255, 255, 255));
    assert_eq!(light.background, Color { r: 247, g: 248, b: 251, a: 255 });
    let dark = Palette::dark();
    assert_eq!(dark.background, Color::rgb(16, 18, 24));
    assert_eq!(dark.warning, Color::rgb(240, 185, 70));
    assert_ne!(light, dark);
}

fn is_function_module(size: usize, x: usize, y: usize) -> bool {
    let finder = (x <= 7 && y <= 7) || (x + 8 >= size && y <= 7) || (x <= 7 && y + 8 >= size);
    let format = (y == 8 && (x <= 8 || x + 8 >= size)) || (x == 8 && (y <= 8 || y + 7 >= size));
    let alignment = size > 21 && x + 9 >= size && x + 5 <= size && y + 9 >= size && y + 5 <= size;
    finder || format || x == 6 || y == 6 || alignment
}

fn read_codewords(matrix: &raxon::qr::QrMatrix, count: usize) -> Vec<u8> {
    let size = matrix.size();
    let mut bits = Vec::new();
    let mut right = size - 1;
    let mut upward = true;
    loop {
        if right == 6 {
            right -= 1;
        }
        for i in 0..size {
            let y = if upward { size - 1 - i } else { i };
            for dx in 0..2 {
                let x = right - dx;
                if !is_function_module(size, x, y) {
                    bits.push(matrix.get(x, y) ^ ((x + y) % 2 == 0));
                }
            }
        }
        upward = !upward;
        if right < 2 {
            break;
        }
        right -= 2;
    }
    bits.chunks(8).take(count).map(|c| c.iter().fold(0u8, |acc, b| (acc << 1) | (*b as u8))).collect()
}

#[test]
fn matrix_carries_function_patterns_and_readable_data() {
    let matrix = qr_matrix("https://rtylr.com").expect("url should encode");
    let size = matrix.size();
    for (left, top) in [(0, 0), (size - 7, 0), (0, size - 7)] {
        for d in 0..7 {
            assert!(matrix.get(left + d, top));
            assert!(matrix.get(left + d, top + 6));
            assert!(matrix.get(left, top + d));
            assert!(matrix.get(left + 6, top + d));
        }
        assert!(!matrix.get(left + 1, top + 1));
        assert!(matrix.get(left + 3, top + 3));
    }
    for i in 8..size - 8 {
        assert_eq!(matrix.get(i, 6), i % 2 == 0);
        assert_eq!(matrix.get(6, i), i % 2 == 0);
    }
    let word = format_bits(0);
    let upper: Vec<bool> = (0..6).map(|y| matrix.get(8, y)).collect();
    let expected: Vec<bool> = (0..6).map(|i| (word >> i) & 1 != 0).collect();
    assert_eq!(upper, expected);
    assert_eq!(read_codewords(&matrix, 3), vec![0x41, 0x16, 0x87]);
}

#[test]
fn version_two_matrix_has_its_alignment_pattern() {
    let matrix = qr_matrix("https://rtylr.com/orders/1").expect("fits v2");
    assert_eq!(matrix.size(), 25);
    let c = 18;
    assert!(matrix.get(c, c));
    assert!(!matrix.get(c + 1, c));
    assert!(matrix.get(c + 2, c + 2));
    assert!(matrix.get(c - 2, c + 1));
    assert_eq!(read_codewords(&matrix, 2), vec![0x41, 0xA6]);
}

#[test]
fn quiet_zone_surrounds_the_matrix() {
    let matrix = qr_matrix("https://rtylr.com").expect("url should encode");
    let rows = quiet_zone_rows(&matrix);
    assert_eq!(rows.len(), 29);
    assert!(rows.iter().all(|r| r.len() == 29));
    assert!(rows[0].iter().all(|d| !d));
    assert!(rows[3].iter().all(|d| !d));
    assert!(rows.iter().all(|r| !r[0] && !r[3] && !r[25] && !r[28]));
    for y in 0..21 {
        for x in 0..21 {
            assert_eq!(rows[y + 4][x + 4], matrix.get(x, y));
        }
    }
}
