use rust_web_browser_engineering::gpu::AtlasPacker;

#[test]
fn atlas_rows_fill_left_to_right_then_wrap() {
    let mut packer = AtlasPacker::new(16);
    assert_eq!(packer.allocate(4, 4, 1), Some((1, 1)));
    assert_eq!(packer.allocate(10, 2, 0), Some((6, 0)));
    assert_eq!(packer.allocate(1, 1, 0), Some((0, 6)));
    assert_eq!(packer.allocate(20, 1, 0), None);
    assert_eq!(packer.allocate(16, 12, 0), None);
    assert_eq!(packer.allocate(2, 2, 0), Some((0, 7)));
}

#[test]
fn atlas_boxes_never_overlap() {
    let mut packer = AtlasPacker::new(64);
    let mut boxes: Vec<(u32, u32, u32, u32)> = Vec::new();
    for i in 0..200u32 {
        let w = 1 + (i * 7) % 13;
        let h = 1 + (i * 5) % 11;
        if let Some((x, y)) = packer.allocate(w, h, 1) {
            boxes.push((x - 1, y - 1, w + 2, h + 2));
        }
    }
    assert!(!boxes.is_empty());
    for (i, a) in boxes.iter().enumerate() {
        assert!(a.0 + a.2 <= 64 && a.1 + a.3 <= 64);
        for b in boxes.iter().skip(i + 1) {
            let apart = a.0 + a.2 <= b.0 || b.0 + b.2 <= a.0 || a.1 + a.3 <= b.1 || b.1 + b.3 <= a.1;
            assert!(apart);
        }
    }
}
