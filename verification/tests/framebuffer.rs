use aetherquill::render::{effect_settle, Fb, BLACK, EFFECT_REACH, GRAY, H, W, WHITE};

fn screen() -> Vec<u16> {
    vec![GRAY; (W * H) as usize]
}

fn at(px: &[u16], x: i32, y: i32) -> u16 {
    px[(y * W + x) as usize]
}

fn count(px: &[u16], c: u16) -> usize {
    px.iter().filter(|&&p| p == c).count()
}

#[test]
fn set_writes_only_on_screen() {
    let mut px = screen();
    let mut fb = Fb { px: &mut px };
    fb.set(3, 4, BLACK);
    fb.set(-1, 4, BLACK);
    fb.set(W, 0, BLACK);
    fb.set(0, H, BLACK);
    assert_eq!(count(&px, BLACK), 1);
    assert_eq!(at(&px, 3, 4), BLACK);
}

#[test]
fn fill_rect_clips_to_the_screen() {
    let mut px = screen();
    let mut fb = Fb { px: &mut px };
    fb.fill_rect(-5, -5, 10, 10, WHITE);
    fb.fill_rect(W - 2, H - 3, 10, 10, BLACK);
    fb.fill_rect(100, 100, -4, 10, BLACK);
    assert_eq!(count(&px, WHITE), 25);
    assert_eq!(count(&px, BLACK), 6);
    assert_eq!(at(&px, 4, 4), WHITE);
    assert_eq!(at(&px, 5, 4), GRAY);
}

#[test]
fn rect_outline_draws_four_bands() {
    let mut px = screen();
    let mut fb = Fb { px: &mut px };
    fb.rect_outline(10, 10, 20, 10, 2, BLACK);
    assert_eq!(count(&px, BLACK), 20 * 10 - 16 * 6);
    assert_eq!(at(&px, 10, 10), BLACK);
    assert_eq!(at(&px, 29, 19), BLACK);
    assert_eq!(at(&px, 12, 12), GRAY);
}

#[test]
fn stamp_disk_fills_the_disk() {
    let mut px = screen();
    let mut fb = Fb { px: &mut px };
    fb.stamp_disk(100, 100, 2, BLACK);
    assert_eq!(count(fb.px, BLACK), 13);
    assert_eq!(at(fb.px, 102, 100), BLACK);
    assert_eq!(at(fb.px, 102, 101), GRAY);
    fb.stamp_disk(0, 0, 1, WHITE);
    assert_eq!(count(fb.px, WHITE), 3);
    fb.stamp_disk(50, 50, -1, WHITE);
    assert_eq!(count(&px, WHITE), 3);
}

#[test]
fn clear_seal_annulus_whitens_outside_the_seal_and_restamps_it() {
    let mut px = vec![BLACK; (W * H) as usize];
    let mut fb = Fb { px: &mut px };
    let seal = [(200, 200 - 30), (200 + 30, 200)];
    fb.clear_seal_annulus(200, 200, 20, 40, &seal);
    // Inside radius 24 stays black, outside the 80x80 square stays black.
    assert_eq!(at(&px, 200, 200), BLACK);
    assert_eq!(at(&px, 224, 200), BLACK);
    assert_eq!(at(&px, 225, 200), WHITE);
    assert_eq!(at(&px, 239, 239), WHITE);
    assert_eq!(at(&px, 240, 200), BLACK);
    assert_eq!(at(&px, 200, 170), BLACK);
    assert_eq!(at(&px, 230, 200), BLACK);
    assert_eq!(at(&px, 231, 200), WHITE);
}

#[test]
fn text_draws_font_glyphs_and_returns_its_width() {
    let mut px = screen();
    let mut fb = Fb { px: &mut px };
    let width = fb.text(10, 20, "A", 1, BLACK);
    assert_eq!(width, 8);
    let glyph = font8x8::legacy::BASIC_LEGACY['A' as usize];
    let mut inked = 0;
    for (row, bits) in glyph.iter().enumerate() {
        for col in 0..8 {
            let on = bits & (1 << col) != 0;
            inked += on as usize;
            assert_eq!(at(&px, 10 + col, 20 + row as i32) == BLACK, on);
        }
    }
    assert_eq!(count(&px, BLACK), inked);
}

#[test]
fn text_scales_glyph_pixels_and_blanks_other_characters() {
    let mut px = screen();
    let mut fb = Fb { px: &mut px };
    let width = fb.text(0, 0, "\u{e9}I", 3, WHITE);
    assert_eq!(width, 48);
    let glyph = font8x8::legacy::BASIC_LEGACY['I' as usize];
    let lit: usize = glyph.iter().map(|b| b.count_ones() as usize).sum();
    assert_eq!(count(&px, WHITE), lit * 9);
    for y in 0..24 {
        for x in 0..24 {
            assert_eq!(at(&px, x, y), GRAY);
        }
    }
}

#[test]
fn effect_settle_clears_the_annulus_and_names_the_element() {
    let mut px = vec![BLACK; (W * H) as usize];
    let mut fb = Fb { px: &mut px };
    let seal: Vec<(i32, i32)> = vec![(500, 392)];
    effect_settle(&mut fb, 500, 500, 100, "fire", &seal);
    let pad = 100 + EFFECT_REACH;
    assert_eq!(at(&px, 500 - pad, 500 - pad), WHITE);
    assert_eq!(at(&px, 500, 500), BLACK);
    assert_eq!(at(&px, 500, 392), BLACK);
    assert_eq!(at(&px, 500 + pad, 500), BLACK);
    // The name starts 4 * 24 / 2 pixels left of the centre, 140 below it.
    let glyph = font8x8::legacy::BASIC_LEGACY['f' as usize];
    for (row, bits) in glyph.iter().enumerate() {
        for col in 0..8 {
            let x = 500 - 48 + col * 6;
            let y = 640 + row as i32 * 6;
            let expected = if bits & (1 << col) != 0 { BLACK } else { WHITE };
            assert_eq!(at(&px, x, y), expected);
        }
    }
}

#[test]
fn stamp_glyph_fills_one_block_per_set_bit() {
    let mut px = screen();
    let mut fb = Fb { px: &mut px };
    // Bit 0 of the top row, bit 7 of the bottom row, and a full middle row.
    let rows = [0b0000_0001, 0, 0, 0b1111_1111, 0, 0, 0, 0b1000_0000];
    fb.stamp_glyph(100, 200, rows, 2, BLACK);
    assert_eq!(count(&px, BLACK), (1 + 8 + 1) * 4);
    assert_eq!(at(&px, 100, 200), BLACK);
    assert_eq!(at(&px, 101, 201), BLACK);
    assert_eq!(at(&px, 102, 200), GRAY);
    assert_eq!(at(&px, 100 + 7 * 2, 200 + 7 * 2), BLACK);
    assert_eq!(at(&px, 100 + 15, 200 + 3 * 2 + 1), BLACK);
    assert_eq!(at(&px, 100, 200 + 2), GRAY);
}

#[test]
fn stamp_glyph_clips_to_the_screen() {
    let mut px = screen();
    let mut fb = Fb { px: &mut px };
    fb.stamp_glyph(-4, -4, [0xff; 8], 1, BLACK);
    // Only the 4 by 4 corner of the 8 by 8 block lands on the screen.
    assert_eq!(count(&px, BLACK), 16);
}

#[test]
fn text_far_off_screen_changes_nothing() {
    let mut px = screen();
    let mut fb = Fb { px: &mut px };
    assert_eq!(fb.text(i32::MIN + 5, 0, "", 1, BLACK), 0);
    assert_eq!(fb.text(i32::MIN + 5, 100, "AB", 2, BLACK), 32);
    assert_eq!(fb.text(i32::MAX - 40, i32::MAX - 20, "Hi", 2, BLACK), 32);
    assert_eq!(count(&px, GRAY), (W * H) as usize);
}
