//! First-run self-install of the AppImage build: when to offer it, the
//! desktop entry it writes and where its icons go. Looking at the disk and
//! the environment, and writing the files, is the caller's part.

use vstd::prelude::*;
use crate::num::{digits, u64_digits};
use crate::text::copy_str;

verus! {

/// Whether to offer self-install: running from an AppImage, with a home
/// directory to install into, not already the installed copy, nothing
/// installed yet and no earlier decline.
pub fn should_offer_install(
    from_appimage: bool,
    has_home: bool,
    is_installed_copy: bool,
    installed_exists: bool,
    declined: bool,
) -> (b: bool)
    ensures
        b == (from_appimage && has_home && !is_installed_copy && !installed_exists && !declined),
{
    if !from_appimage || !has_home {
        return false;
    }
    if is_installed_copy || installed_exists {
        return false;
    }
    !declined
}

/// The text of the desktop entry; `Exec` names the installed copy.
pub open spec fn desktop_entry_spec(target: Seq<char>) -> Seq<char> {
    "[Desktop Entry]\nType=Application\nName=Cirrust\nGenericName=Cloud Sync Client\nComment=Browse, sync and play files from Nextcloud and compatible servers\nExec="@
        + target + " %U\nIcon=org.cirrust.client\nTerminal=false\nCategories=Network;FileTransfer;Utility;\nStartupWMClass=org.cirrust.client\nStartupNotify=true\n"@
}

/// The desktop entry for an installed binary at `target`.
pub fn desktop_entry(target: &str) -> (r: String)
    ensures
        r@ == desktop_entry_spec(target@),
{
    let mut r = copy_str(
        "[Desktop Entry]\nType=Application\nName=Cirrust\nGenericName=Cloud Sync Client\nComment=Browse, sync and play files from Nextcloud and compatible servers\nExec=",
    );
    r.append(target);
    r.append(
        " %U\nIcon=org.cirrust.client\nTerminal=false\nCategories=Network;FileTransfer;Utility;\nStartupWMClass=org.cirrust.client\nStartupNotify=true\n",
    );
    r
}

/// Where, under the data home, the icon of one size goes:
/// `icons/hicolor/<size>x<size>/apps/org.cirrust.client.png`.
pub fn icon_path(size: u32) -> (r: String)
    ensures
        r@ == "icons/hicolor/"@ + digits(size as nat) + seq!['x'] + digits(size as nat) + "/apps/org.cirrust.client.png"@,
{
    let d = u64_digits(size as u64);
    let mut r = copy_str("icons/hicolor/");
    r.append(d.as_str());
    crate::text::push_char(&mut r, 'x');
    r.append(d.as_str());
    r.append("/apps/org.cirrust.client.png");
    r
}

} // verus!
