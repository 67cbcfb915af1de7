//! The bundled icons the window uses on buttons.
use vstd::prelude::*;

verus! {

/// An icon drawn from the bundled symbolic images.
#[derive(Clone, Copy, Debug, PartialEq, Eq, Structural)]
pub enum AppIcon {
    Edit,
    Collapse,
    Trash,
    Refresh,
}

impl AppIcon {
    /// The file name of the bundled image for this icon.
    pub fn file_name(self) -> (r: &'static str)
        ensures
            self == AppIcon::Edit ==> r@ == "edit-symbolic.svg"@,
            self == AppIcon::Collapse ==> r@ == "collapse-symbolic.svg"@,
            self == AppIcon::Trash ==> r@ == "trash-symbolic.svg"@,
            self == AppIcon::Refresh ==> r@ == "refresh-symbolic.svg"@,
    {
        match self {
            AppIcon::Edit => "edit-symbolic.svg",
            AppIcon::Collapse => "collapse-symbolic.svg",
            AppIcon::Trash => "trash-symbolic.svg",
            AppIcon::Refresh => "refresh-symbolic.svg",
        }
    }
}

} // verus!
