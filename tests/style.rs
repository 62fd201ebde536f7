use gitegylet::style::{Branch, BranchCheckbox, Rgb, Window};

const DARK: Rgb = Rgb { r: 0x1a, g: 0x1d, b: 0x21 };
const LIGHT: Rgb = Rgb { r: 0xc6, g: 0xc1, b: 0xa7 };

#[test]
fn window_colours() {
    assert!(Window.background() == Some(DARK));
    assert!(Window.text_color() == Some(LIGHT));
}

#[test]
fn branch_row_style_follows_head_and_selection() {
    assert!(Branch::for_branch(true, true) == Branch::Head);
    assert!(Branch::for_branch(true, false) == Branch::UnselectedHead);
    assert!(Branch::for_branch(false, true) == Branch::Normal);
    assert!(Branch::for_branch(false, false) == Branch::Normal);
}

#[test]
fn branch_row_colours() {
    assert!(Branch::Head.background() == Some(Rgb { r: 0xff, g: 0xc8, b: 0x06 }));
    assert!(Branch::UnselectedHead.background() == Some(Rgb { r: 0x48, g: 0x3f, b: 0x1c }));
    assert!(Branch::Normal.background().is_none());
    assert!(Branch::Head.text_color() == Some(DARK));
    assert!(Branch::UnselectedHead.text_color().is_none());
    assert!(Branch::Normal.text_color().is_none());
}

#[test]
fn checkbox_style() {
    assert!(BranchCheckbox::for_branch(true) == BranchCheckbox::Head);
    assert!(BranchCheckbox::for_branch(false) == BranchCheckbox::Normal);
    assert!(BranchCheckbox::Head.checkmark_color() == DARK);
    assert!(BranchCheckbox::Normal.checkmark_color() == LIGHT);
}
