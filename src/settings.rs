//! The look chosen by default for the user interface.

use vstd::prelude::*;
use crate::text::{same_text, texts};

verus! {

/// Style, color scheme and icon theme.
pub struct Look {
    pub style: String,
    pub color_scheme: String,
    pub icons: String,
}

/// Whether the system is a Linux or BSD one, where the desktop decides.
pub open spec fn is_unix_desktop(os: Seq<char>) -> bool {
    os == "Linux"@ || os == "FreeBSD"@ || os == "OpenBSD"@
}

/// The default look for an operating system, a desktop environment, the styles
/// the toolkit offers and the desktop's dark-theme preference: on a KDE desktop
/// Breeze where offered, else Adwaita-Dark or Adwaita after the preference (with
/// a light Fusion where Adwaita is missing); on macOS the native style where
/// offered; Fusion with a dark scheme otherwise.
pub open spec fn default_look(
    os: Seq<char>,
    desktop: Option<Seq<char>>,
    styles: Seq<Seq<char>>,
    dark: bool,
) -> (Seq<char>, Seq<char>, Seq<char>) {
    if is_unix_desktop(os) && desktop == Some("KDE"@) {
        if styles.contains("Breeze"@) {
            ("Breeze"@, "System"@, "Breeze-Dark"@)
        } else if dark {
            if styles.contains("Adwaita-Dark"@) {
                ("Adwaita-Dark"@, "System"@, "Breeze-Dark"@)
            } else {
                ("Fusion"@, "Dark Fusion"@, "Breeze-Dark"@)
            }
        } else if styles.contains("Adwaita"@) {
            ("Adwaita"@, "System"@, "Breeze"@)
        } else {
            ("Fusion"@, "Light Fusion"@, "Breeze"@)
        }
    } else if os == "Darwin"@ && styles.contains("macintosh"@) {
        ("macintosh"@, "System"@, "Breeze"@)
    } else {
        ("Fusion"@, "Dark Fusion"@, "Breeze-Dark"@)
    }
}

fn offers(styles: &Vec<String>, s: &str) -> (r: bool)
    ensures
        r == texts(styles@).contains(s@),
{
    let mut i: usize = 0;
    while i < styles.len()
        invariant
            i <= styles.len(),
            forall|j: int| 0 <= j < i ==> styles@[j]@ != s@,
        decreases styles.len() - i,
    {
        if same_text(styles[i].as_str(), s) {
            assert(texts(styles@)[i as int] == s@);
            return true;
        }
        i = i + 1;
    }
    assert forall|j: int| 0 <= j < texts(styles@).len() implies texts(styles@)[j] != s@ by {
        assert(texts(styles@)[j] == styles@[j]@);
    }
    false
}

fn look(style: &str, color_scheme: &str, icons: &str) -> (r: Look)
    ensures
        r.style@ == style@,
        r.color_scheme@ == color_scheme@,
        r.icons@ == icons@,
{
    Look {
        style: String::from_str(style),
        color_scheme: String::from_str(color_scheme),
        icons: String::from_str(icons),
    }
}

/// The default look (see `default_look`).
pub fn default_style(os: &str, desktop: Option<&str>, styles: &Vec<String>, dark: bool) -> (r: Look)
    ensures
        (r.style@, r.color_scheme@, r.icons@) == default_look(
            os@,
            match desktop { Some(d) => Some(d@), None => None },
            texts(styles@),
            dark,
        ),
{
    let unix = same_text(os, "Linux") || same_text(os, "FreeBSD") || same_text(os, "OpenBSD");
    let kde = match desktop {
        Some(d) => same_text(d, "KDE"),
        None => false,
    };
    if unix && kde {
        if offers(styles, "Breeze") {
            look("Breeze", "System", "Breeze-Dark")
        } else if dark {
            if offers(styles, "Adwaita-Dark") {
                look("Adwaita-Dark", "System", "Breeze-Dark")
            } else {
                look("Fusion", "Dark Fusion", "Breeze-Dark")
            }
        } else if offers(styles, "Adwaita") {
            look("Adwaita", "System", "Breeze")
        } else {
            look("Fusion", "Light Fusion", "Breeze")
        }
    } else if same_text(os, "Darwin") && offers(styles, "macintosh") {
        look("macintosh", "System", "Breeze")
    } else {
        look("Fusion", "Dark Fusion", "Breeze-Dark")
    }
}

} // verus!
