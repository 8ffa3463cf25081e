use trashsim::drawer::DrawerContext;

#[test]
fn scale_adjustment_clamps() {
    let mut ctx = DrawerContext {
        scale: 50,
        x_center: 0,
        y_center: 0,
        window_size: (800, 600),
    };
    ctx.adjust_scale(-100);
    assert_eq!(ctx.scale, 10);
    ctx.adjust_scale(5000);
    assert_eq!(ctx.scale, 1000);
    ctx.adjust_scale(-7);
    assert_eq!(ctx.scale, 993);
}

#[test]
fn offset_and_resize_accumulate() {
    let mut ctx = DrawerContext {
        scale: 50,
        x_center: 10,
        y_center: -4,
        window_size: (800, 600),
    };
    ctx.offset(-3, 9);
    assert_eq!(ctx.x_center, 7);
    assert_eq!(ctx.y_center, 5);
    ctx.resize(1024, 768);
    assert_eq!(ctx.window_size, (1024, 768));
    assert_eq!(ctx.scale, 50);
}
