use sync_vault::icon::icon_rgba;

/// The icon painted pixel by pixel: rectangles first, then the arrows.
fn painted_icon() -> Vec<u8> {
    const S: usize = 32;
    let mut px = vec![0u8; S * S * 4];
    let set = |px: &mut Vec<u8>, x: i32, y: i32, r: u8, g: u8, b: u8| {
        if x >= 0 && y >= 0 && (x as usize) < S && (y as usize) < S {
            let i = (y as usize * S + x as usize) * 4;
            px[i] = r;
            px[i + 1] = g;
            px[i + 2] = b;
            px[i + 3] = 255;
        }
    };
    for y in 2i32..18 {
        for x in 2i32..20 {
            set(&mut px, x, y, 40, 180, 160);
        }
    }
    for y in 14i32..30 {
        for x in 12i32..30 {
            set(&mut px, x, y, 30, 140, 220);
        }
    }
    for i in 0i32..5 {
        set(&mut px, 14 + i, 10, 255, 255, 255);
    }
    set(&mut px, 16, 8, 255, 255, 255);
    set(&mut px, 16, 12, 255, 255, 255);
    for i in 0i32..5 {
        set(&mut px, 16 + i, 22, 255, 255, 255);
    }
    set(&mut px, 18, 20, 255, 255, 255);
    set(&mut px, 18, 24, 255, 255, 255);
    px
}

#[test]
fn icon_matches_painted_picture() {
    assert_eq!(icon_rgba(), painted_icon());
}

#[test]
fn icon_corner_and_arrow_pixels() {
    let v = icon_rgba();
    assert_eq!(v.len(), 32 * 32 * 4);
    assert_eq!(&v[0..4], &[0, 0, 0, 0]);
    let at = |x: usize, y: usize| &v[(y * 32 + x) * 4..(y * 32 + x) * 4 + 4];
    assert_eq!(at(3, 3), &[40, 180, 160, 255]);
    assert_eq!(at(15, 15), &[30, 140, 220, 255]);
    assert_eq!(at(14, 10), &[255, 255, 255, 255]);
}
