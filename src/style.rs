//! The colour scheme of the log window, as plain colour values.

use vstd::prelude::*;

verus! {

/// An opaque colour by its red, green and blue channels.
#[derive(Clone, Copy, PartialEq, Eq, Structural)]
pub struct Rgb {
    pub r: u8,
    pub g: u8,
    pub b: u8,
}

/// The dark background of the window.
pub open spec fn dark() -> Rgb {
    Rgb { r: 0x1a, g: 0x1d, b: 0x21 }
}

/// The light text colour of the window.
pub open spec fn light() -> Rgb {
    Rgb { r: 0xc6, g: 0xc1, b: 0xa7 }
}

/// The highlight of the selected head branch.
pub open spec fn amber() -> Rgb {
    Rgb { r: 0xff, g: 0xc8, b: 0x06 }
}

/// The highlight of the deselected head branch.
pub open spec fn dim_amber() -> Rgb {
    Rgb { r: 0x48, g: 0x3f, b: 0x1c }
}

/// The style of the whole window.
pub struct Window;

impl Window {
    pub fn background(&self) -> (c: Option<Rgb>)
        ensures
            c == Some(dark()),
    {
        Some(Rgb { r: 0x1a, g: 0x1d, b: 0x21 })
    }

    pub fn text_color(&self) -> (c: Option<Rgb>)
        ensures
            c == Some(light()),
    {
        Some(Rgb { r: 0xc6, g: 0xc1, b: 0xa7 })
    }
}

/// The style of a branch's selection checkbox.
#[derive(Clone, Copy, PartialEq, Eq, Structural)]
pub enum BranchCheckbox {
    Head,
    Normal,
}

impl BranchCheckbox {
    /// The checkbox style of a branch.
    pub fn for_branch(head: bool) -> (s: BranchCheckbox)
        ensures
            s == if head {
                BranchCheckbox::Head
            } else {
                BranchCheckbox::Normal
            },
    {
        if head {
            BranchCheckbox::Head
        } else {
            BranchCheckbox::Normal
        }
    }

    /// The colour of the check mark: dark on the head's highlight, light
    /// elsewhere.
    pub fn checkmark_color(&self) -> (c: Rgb)
        ensures
            c == match self {
                BranchCheckbox::Head => dark(),
                BranchCheckbox::Normal => light(),
            },
    {
        match self {
            BranchCheckbox::Head => Rgb { r: 0x1a, g: 0x1d, b: 0x21 },
            BranchCheckbox::Normal => Rgb { r: 0xc6, g: 0xc1, b: 0xa7 },
        }
    }
}

/// The style of a branch's row.
#[derive(Clone, Copy, PartialEq, Eq, Structural)]
pub enum Branch {
    Head,
    UnselectedHead,
    Normal,
}

impl Branch {
    /// The row style of a branch: the head is highlighted, brightly while it is
    /// selected.
    pub fn for_branch(head: bool, selected: bool) -> (s: Branch)
        ensures
            s == if !head {
                Branch::Normal
            } else if selected {
                Branch::Head
            } else {
                Branch::UnselectedHead
            },
    {
        if head {
            if selected {
                Branch::Head
            } else {
                Branch::UnselectedHead
            }
        } else {
            Branch::Normal
        }
    }

    /// The row background; `None` leaves the window's own.
    pub fn background(&self) -> (c: Option<Rgb>)
        ensures
            c == match self {
                Branch::Head => Some(amber()),
                Branch::UnselectedHead => Some(dim_amber()),
                Branch::Normal => None,
            },
    {
        match self {
            Branch::Head => Some(Rgb { r: 0xff, g: 0xc8, b: 0x06 }),
            Branch::UnselectedHead => Some(Rgb { r: 0x48, g: 0x3f, b: 0x1c }),
            Branch::Normal => None,
        }
    }

    /// The row text colour; `None` leaves the window's own.
    pub fn text_color(&self) -> (c: Option<Rgb>)
        ensures
            c == match self {
                Branch::Head => Some(dark()),
                _ => None,
            },
    {
        match self {
            Branch::Head => Some(Rgb { r: 0x1a, g: 0x1d, b: 0x21 }),
            _ => None,
        }
    }
}

} // verus!
