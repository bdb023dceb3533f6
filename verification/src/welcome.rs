//! The text of the welcome screen shown on first start.

use vstd::prelude::*;

verus! {

/// How a line of the welcome screen is drawn.
#[derive(Debug, Clone, Copy, PartialEq, Eq, Structural)]
pub enum WelcomeStyle {
    /// The whale logo: brand colour, bold.
    Logo,
    /// Secondary text.
    Muted,
    /// Primary text.
    Primary,
    /// No style.
    Plain,
}

/// One line of the welcome screen.
#[derive(Debug)]
pub struct WelcomeLine {
    pub text: String,
    pub style: WelcomeStyle,
}

/// The number of lines of the whale logo.
pub const LOGO_HEIGHT: usize = 15;

/// Line `i` of the whale logo.
pub open spec fn logo_line_spec(i: int) -> Seq<char> {
    if i == 0 {
        "   ╭──────────────────────────────────────────╮"@
    } else if i == 1 {
        "   │                                          │"@
    } else if i == 2 {
        "   │      ~~              .--'                 │"@
    } else if i == 3 {
        "   │       '--.----.---.'    🐋                │"@
    } else if i == 4 {
        "   │           '--------'                     │"@
    } else if i == 5 {
        "   │                                          │"@
    } else if i == 6 {
        "   │    ██████╗ ██████╗ ██████╗ ███████╗      │"@
    } else if i == 7 {
        "   │   ██╔════╝██╔═══██╗██╔══██╗██╔════╝      │"@
    } else if i == 8 {
        "   │   ██║     ██║   ██║██║  ██║█████╗        │"@
    } else if i == 9 {
        "   │   ██║     ██║   ██║██║  ██║██╔══╝        │"@
    } else if i == 10 {
        "   │   ╚██████╗╚██████╔╝██████╔╝███████╗      │"@
    } else if i == 11 {
        "   │    ╚═════╝ ╚═════╝ ╚═════╝ ╚══════╝      │"@
    } else if i == 12 {
        "   │     W  H  A  L  E                        │"@
    } else if i == 13 {
        "   │                                          │"@
    } else {
        "   ╰──────────────────────────────────────────╯"@
    }
}

/// Line `i` of the whale logo.
fn logo_line(i: usize) -> (r: &'static str)
    ensures
        r@ == logo_line_spec(i as int),
{
    match i {
        0 => "   ╭──────────────────────────────────────────╮",
        1 => "   │                                          │",
        2 => "   │      ~~              .--'                 │",
        3 => "   │       '--.----.---.'    🐋                │",
        4 => "   │           '--------'                     │",
        5 => "   │                                          │",
        6 => "   │    ██████╗ ██████╗ ██████╗ ███████╗      │",
        7 => "   │   ██╔════╝██╔═══██╗██╔══██╗██╔════╝      │",
        8 => "   │   ██║     ██║   ██║██║  ██║█████╗        │",
        9 => "   │   ██║     ██║   ██║██║  ██║██╔══╝        │",
        10 => "   │   ╚██████╗╚██████╔╝██████╔╝███████╗      │",
        11 => "   │    ╚═════╝ ╚═════╝ ╚═════╝ ╚══════╝      │",
        12 => "   │     W  H  A  L  E                        │",
        13 => "   │                                          │",
        _ => "   ╰──────────────────────────────────────────╯",
    }
}

/// The welcome screen for a build of version `version`: the logo, a blank
/// line, the version, a blank line, the tagline and the key hint.
pub open spec fn welcome_spec(version: Seq<char>) -> Seq<(WelcomeStyle, Seq<char>)> {
    Seq::new(LOGO_HEIGHT as nat, |i: int| (WelcomeStyle::Logo, logo_line_spec(i))) + seq![
        (WelcomeStyle::Plain, Seq::<char>::empty()),
        (WelcomeStyle::Muted, "   Version "@ + version),
        (WelcomeStyle::Plain, Seq::<char>::empty()),
        (WelcomeStyle::Primary, "   AI-powered terminal workspace for deep coding sessions."@),
        (WelcomeStyle::Muted, "   Press Enter to continue.  Ctrl+C exits."@),
    ]
}

/// Law: whatever the version, the screen is the logo followed by a blank
/// line, the version line, a blank line, the tagline and the key hint.
pub proof fn lemma_welcome_layout(version: Seq<char>)
    ensures
        welcome_spec(version).len() == LOGO_HEIGHT + 5,
        forall|i: int| 0 <= i < LOGO_HEIGHT ==> (#[trigger] welcome_spec(version)[i]).0 == WelcomeStyle::Logo,
        welcome_spec(version)[LOGO_HEIGHT as int] == (WelcomeStyle::Plain, Seq::<char>::empty()),
        welcome_spec(version)[LOGO_HEIGHT + 1] == (WelcomeStyle::Muted, "   Version "@ + version),
        welcome_spec(version)[LOGO_HEIGHT + 2] == (WelcomeStyle::Plain, Seq::<char>::empty()),
        welcome_spec(version)[LOGO_HEIGHT + 3] == (
            WelcomeStyle::Primary,
            "   AI-powered terminal workspace for deep coding sessions."@,
        ),
        welcome_spec(version)[LOGO_HEIGHT + 4] == (
            WelcomeStyle::Muted,
            "   Press Enter to continue.  Ctrl+C exits."@,
        ),
{
}

/// The style and text of a welcome line.
pub open spec fn line_view(l: WelcomeLine) -> (WelcomeStyle, Seq<char>) {
    (l.style, l.text@)
}

/// The lines of the welcome screen for a build of version `version`.
pub fn welcome_lines(version: &str) -> (r: Vec<WelcomeLine>)
    ensures
        r@.len() == welcome_spec(version@).len(),
        forall|i: int| 0 <= i < r@.len() ==> line_view(#[trigger] r@[i]) == welcome_spec(version@)[i],
        r@.len() == LOGO_HEIGHT + 5,
        forall|i: int| 0 <= i < LOGO_HEIGHT ==> (#[trigger] r@[i]).style == WelcomeStyle::Logo,
        r@[LOGO_HEIGHT as int].style == WelcomeStyle::Plain,
        r@[LOGO_HEIGHT as int].text@.len() == 0,
        r@[LOGO_HEIGHT + 1].style == WelcomeStyle::Muted,
        r@[LOGO_HEIGHT + 1].text@ == "   Version "@ + version@,
        r@[LOGO_HEIGHT + 2].style == WelcomeStyle::Plain,
        r@[LOGO_HEIGHT + 2].text@.len() == 0,
        r@[LOGO_HEIGHT + 3].style == WelcomeStyle::Primary,
        r@[LOGO_HEIGHT + 3].text@ == "   AI-powered terminal workspace for deep coding sessions."@,
        r@[LOGO_HEIGHT + 4].style == WelcomeStyle::Muted,
        r@[LOGO_HEIGHT + 4].text@ == "   Press Enter to continue.  Ctrl+C exits."@,
{
    let mut r: Vec<WelcomeLine> = Vec::new();
    let mut i: usize = 0;
    while i < LOGO_HEIGHT
        invariant
            i <= LOGO_HEIGHT,
            r@.len() == i,
            forall|k: int| 0 <= k < i ==> line_view(#[trigger] r@[k]) == welcome_spec(version@)[k],
        decreases LOGO_HEIGHT - i,
    {
        r.push(WelcomeLine { text: logo_line(i).to_owned(), style: WelcomeStyle::Logo });
        i = i + 1;
    }
    let mut version_line = "   Version ".to_owned();
    version_line.append(version);
    r.push(WelcomeLine { text: String::new(), style: WelcomeStyle::Plain });
    r.push(WelcomeLine { text: version_line, style: WelcomeStyle::Muted });
    r.push(WelcomeLine { text: String::new(), style: WelcomeStyle::Plain });
    r.push(
        WelcomeLine {
            text: "   AI-powered terminal workspace for deep coding sessions.".to_owned(),
            style: WelcomeStyle::Primary,
        },
    );
    r.push(
        WelcomeLine {
            text: "   Press Enter to continue.  Ctrl+C exits.".to_owned(),
            style: WelcomeStyle::Muted,
        },
    );
    proof {
        let w = welcome_spec(version@);
        assert(line_view(r@[LOGO_HEIGHT as int]) == w[LOGO_HEIGHT as int]);
        assert(line_view(r@[LOGO_HEIGHT + 1]) == w[LOGO_HEIGHT + 1]);
        assert(line_view(r@[LOGO_HEIGHT + 2]) == w[LOGO_HEIGHT + 2]);
        assert(line_view(r@[LOGO_HEIGHT + 3]) == w[LOGO_HEIGHT + 3]);
        assert(line_view(r@[LOGO_HEIGHT + 4]) == w[LOGO_HEIGHT + 4]);
        assert forall|i: int| 0 <= i < LOGO_HEIGHT implies (#[trigger] r@[i]).style
            == WelcomeStyle::Logo by {
            assert(line_view(r@[i]) == w[i]);
        }
    }
    r
}

} // verus!
