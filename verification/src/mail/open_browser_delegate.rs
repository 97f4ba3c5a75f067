//! The step of signing in at which the user is shown a page of the mail
//! provider.

use vstd::prelude::*;

verus! {

/// Presents the provider's consent page by opening it in the user's own
/// browser.
#[derive(Debug, Clone, Copy, Default)]
pub struct OpenBrowserDelegate;

/// What presenting a consent page comes to: the address to open in the
/// browser, and the code to hand back to the sign-in once it is open.
#[derive(Debug, PartialEq, Eq)]
pub struct Presentation {
    pub url: String,
    pub code: String,
}

impl OpenBrowserDelegate {
    /// The page is opened as it was given. No code is handed back, whether
    /// the sign-in asks for one or not: the provider sends the user's
    /// answer to the sign-in by itself.
    pub fn present_user_url(&self, url: &str, need_code: bool) -> (shown: Presentation)
        ensures
            shown.url@ == url@,
            shown.code@ == Seq::<char>::empty(),
    {
        Presentation { url: url.to_owned(), code: String::new() }
    }
}

} // verus!
