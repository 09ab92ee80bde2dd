//! Fetched responses: one normalized response per side (`PartResponse`) and
//! the paired result of a whole comparison (`Response`). A `Response` is only
//! ever built from two successful sides; a comparison with a failed side
//! yields no `Response` at all.

use vstd::prelude::*;

use crate::text::{spec_digits, u16_to_string};

verus! {

/// A fetched response after normalization: the exact URL sent on the wire,
/// the status code, and the normalized (pretty-printed, redacted) body text.
#[derive(Debug, Clone, PartialEq, Eq)]
pub struct PartResponse {
    pub url: String,
    pub status_code: u16,
    pub text: String,
}

/// The mathematical content of a `PartResponse`.
pub ghost struct PartResponseView {
    pub url: Seq<char>,
    pub status_code: u16,
    pub text: Seq<char>,
}

impl View for PartResponse {
    type V = PartResponseView;

    open spec fn view(&self) -> PartResponseView {
        PartResponseView { url: self.url@, status_code: self.status_code, text: self.text@ }
    }
}

/// The text form of one side: status code line, then the normalized body.
pub open spec fn spec_render(p: PartResponse) -> Seq<char> {
    "Status code "@ + spec_digits(p.status_code as int) + "\n"@ + p.text@
}

impl PartResponse {
    pub fn new(url: String, status_code: u16, text: String) -> (r: Self)
        ensures
            r == (PartResponse { url, status_code, text }),
    {
        Self { url, status_code, text }
    }

    /// An owned copy; `PartResponse` is a value type, safe to duplicate.
    pub fn duplicate(&self) -> (r: Self)
        ensures
            r == *self,
    {
        Self { url: self.url.clone(), status_code: self.status_code, text: self.text.clone() }
    }

    /// The status line and body, as shown to the operator.
    pub fn render(&self) -> (r: String)
        ensures
            r@ == spec_render(*self),
    {
        let mut s = String::from_str("Status code ");
        let code = u16_to_string(self.status_code);
        s.append(code.as_str());
        s.append("\n");
        s.append(self.text.as_str());
        s
    }
}

/// The paired outcome of one comparison: both sides succeeded.
pub struct Response {
    pub name: String,
    pub left: PartResponse,
    pub right: PartResponse,
}

/// The header and left-side text shown when a comparison's sides differ.
pub open spec fn spec_diff(r: Response) -> Seq<char> {
    r.name@ + ": "@ + r.left.url@ + " => "@ + r.right.url@ + "\n"@ + spec_render(r.left)
}

impl Response {
    pub fn new(name: String, left: PartResponse, right: PartResponse) -> (r: Self)
        ensures
            r == (Response { name, left, right }),
    {
        Self { name, left, right }
    }

    /// True when the two normalized bodies are identical, so the comparison
    /// needs no diff output.
    pub fn texts_match(&self) -> (r: bool)
        ensures
            r == (self.left.text@ == self.right.text@),
    {
        self.left.text == self.right.text
    }

    /// The operator-facing description of this comparison's difference.
    pub fn diff(&self) -> (r: String)
        ensures
            r@ == spec_diff(*self),
    {
        let mut s = self.name.clone();
        s.append(": ");
        s.append(self.left.url.as_str());
        s.append(" => ");
        s.append(self.right.url.as_str());
        s.append("\n");
        let rendered = self.left.render();
        s.append(rendered.as_str());
        s
    }
}

} // verus!
