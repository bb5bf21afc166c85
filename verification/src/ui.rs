//! The URL-shortener front end: request checks, API addresses, and the
//! decisions of the shortening form.
use vstd::prelude::*;
use vstd::string::*;

use crate::entity::domain::opt_view;
use crate::entity::url::{parse_url, url_parse};

verus! {

/// The answer of the shortening service.
pub struct ShortenResponse {
    pub short_url: String,
}

/// A request to shorten `url`.
pub struct ShortenRequest {
    pub url: String,
}

impl ShortenRequest {
    /// Whether the requested text parses as a URL.
    pub fn validate_url(&self) -> (r: bool)
        ensures
            r == url_parse(self.url@) is Some,
    {
        match parse_url(self.url.as_str()) {
            Ok(_) => true,
            Err(_) => false,
        }
    }
}

/// Where the front end sends its requests.
pub struct Config {
    pub api_base_url: String,
}

impl Config {
    /// The configuration for a development build (a local API) or a
    /// production build (the public API).
    pub fn new(development: bool) -> (r: Self)
        ensures
            r.api_base_url@ == if development {
                "http://localhost:3000"@
            } else {
                "https://api.lab.0ae.ru"@
            },
    {
        let api_base_url = if development {
            "http://localhost:3000".to_string()
        } else {
            "https://api.lab.0ae.ru".to_string()
        };
        Config { api_base_url }
    }

    /// The full address of an API endpoint.
    pub fn api_url(&self, endpoint: &str) -> (r: String)
        ensures
            r@ == self.api_base_url@ + endpoint@,
    {
        let mut url = self.api_base_url.clone();
        url.append(endpoint);
        url
    }
}

/// What the shortening form shows: the last answer or message, whether a
/// request is under way, and whether the answer was just copied.
pub struct FormState {
    pub response: Option<String>,
    pub loading: bool,
    pub copied: bool,
}

/// The form state with texts as character sequences.
pub struct FormView {
    pub response: Option<Seq<char>>,
    pub loading: bool,
    pub copied: bool,
}

impl View for FormState {
    type V = FormView;

    open spec fn view(&self) -> FormView {
        FormView { response: opt_view(self.response), loading: self.loading, copied: self.copied }
    }
}

/// What happens to the form.
pub enum FormEvent {
    /// The submit button was pressed with this text in the input.
    Submit { input: String },
    /// A key was pressed in the input, which holds this text.
    Key { key: String, input: String },
    /// The API answered with a short URL, or the request failed with a message.
    Answered { result: Result<String, String> },
    /// The copy button was pressed.
    CopyClicked,
    /// The clipboard took the text.
    Copied,
    /// The copy notice has been shown long enough.
    CopyTimeout,
}

/// What the page must do after an event.
pub enum FormAction {
    /// Keep the browser from acting on the key itself.
    PreventDefault,
    /// Empty the input.
    ClearInput,
    /// Post the shortening request to the API.
    Send { api_url: String, request: ShortenRequest },
    /// Put the text on the clipboard.
    WriteClipboard { text: String },
    /// Raise `CopyTimeout` after this many milliseconds.
    StartCopyTimer { millis: u32 },
}

/// An action with texts as character sequences.
pub enum ActionView {
    PreventDefault,
    ClearInput,
    Send { api_url: Seq<char>, url: Seq<char> },
    WriteClipboard { text: Seq<char> },
    StartCopyTimer { millis: u32 },
}

/// The view of an action.
pub open spec fn action_view(a: FormAction) -> ActionView {
    match a {
        FormAction::PreventDefault => ActionView::PreventDefault,
        FormAction::ClearInput => ActionView::ClearInput,
        FormAction::Send { api_url, request } => ActionView::Send {
            api_url: api_url@,
            url: request.url@,
        },
        FormAction::WriteClipboard { text } => ActionView::WriteClipboard { text: text@ },
        FormAction::StartCopyTimer { millis } => ActionView::StartCopyTimer { millis },
    }
}

/// The views of a list of actions.
pub open spec fn action_views(v: Seq<FormAction>) -> Seq<ActionView> {
    v.map_values(|a: FormAction| action_view(a))
}

/// Where the form posts its requests.
pub open spec fn shorten_endpoint() -> Seq<char> {
    "http://localhost:3000/api/v1/short"@
}

/// How long the copy notice stays, in milliseconds.
pub const COPY_NOTICE_MILLIS: u32 = 2000;

/// The form after submitting `input`, and what the page must do: nothing
/// for an empty input; for text that is no URL, a message and an emptied
/// input; otherwise a request under way, no answer shown, and the input
/// emptied.
pub open spec fn submit_step(s: FormView, input: Seq<char>) -> (FormView, Seq<ActionView>) {
    if input.len() == 0 {
        (s, Seq::empty())
    } else if url_parse(input) is None {
        (
            FormView {
                response: Some("URL validation failed: "@ + input),
                loading: s.loading,
                copied: false,
            },
            seq![ActionView::ClearInput],
        )
    } else {
        (
            FormView { response: None, loading: true, copied: false },
            seq![ActionView::Send { api_url: shorten_endpoint(), url: input }, ActionView::ClearInput],
        )
    }
}

/// The form after an event, and what the page must do.
pub open spec fn form_step(s: FormView, e: FormEvent) -> (FormView, Seq<ActionView>) {
    match e {
        FormEvent::Submit { input } => submit_step(s, input@),
        FormEvent::Key { key, input } => if key@ == "Enter"@ {
            let r = submit_step(s, input@);
            (r.0, seq![ActionView::PreventDefault] + r.1)
        } else {
            (s, Seq::empty())
        },
        FormEvent::Answered { result } => match result {
            Ok(short_url) => (
                FormView { response: Some(short_url@), loading: false, copied: s.copied },
                Seq::empty(),
            ),
            Err(message) => (
                FormView { response: Some("Error: "@ + message@), loading: false, copied: s.copied },
                Seq::empty(),
            ),
        },
        FormEvent::CopyClicked => match s.response {
            Some(text) => (s, seq![ActionView::WriteClipboard { text }]),
            None => (s, Seq::empty()),
        },
        FormEvent::Copied => (
            FormView { copied: true, ..s },
            seq![ActionView::StartCopyTimer { millis: COPY_NOTICE_MILLIS }],
        ),
        FormEvent::CopyTimeout => (FormView { copied: false, ..s }, Seq::empty()),
    }
}

fn submit(state: FormState, input: String) -> (r: (FormState, Vec<FormAction>))
    ensures
        (r.0@, action_views(r.1@)) == submit_step(state@, input@),
{
    let mut actions: Vec<FormAction> = Vec::new();
    if input.as_str().is_empty() {
        assert(action_views(actions@) =~= Seq::<ActionView>::empty());
        return (state, actions);
    }
    let request = ShortenRequest { url: input };
    if !request.validate_url() {
        let mut msg = "URL validation failed: ".to_string();
        msg.append(request.url.as_str());
        actions.push(FormAction::ClearInput);
        assert(action_views(actions@) =~= seq![ActionView::ClearInput]);
        return (FormState { response: Some(msg), loading: state.loading, copied: false }, actions);
    }
    let ghost url = request.url@;
    actions.push(FormAction::Send {
        api_url: "http://localhost:3000/api/v1/short".to_string(),
        request,
    });
    actions.push(FormAction::ClearInput);
    proof {
        reveal_strlit("http://localhost:3000/api/v1/short");
    }
    assert(action_views(actions@) =~= seq![
        ActionView::Send { api_url: shorten_endpoint(), url },
        ActionView::ClearInput,
    ]);
    (FormState { response: None, loading: true, copied: false }, actions)
}

impl FormState {
    /// The form before anything happened: no answer, idle, nothing copied.
    pub fn new() -> (r: Self)
        ensures
            r@ == (FormView { response: None, loading: false, copied: false }),
    {
        FormState { response: None, loading: false, copied: false }
    }

    /// The form after an event, and what the page must do, in order.
    pub fn step(self, event: FormEvent) -> (r: (FormState, Vec<FormAction>))
        ensures
            (r.0@, action_views(r.1@)) == form_step(self@, event),
    {
        let ghost e = event;
        match event {
            FormEvent::Submit { input } => submit(self, input),
            FormEvent::Key { key, input } => {
                if crate::text::str_eq(key.as_str(), "Enter") {
                    proof {
                        reveal_strlit("Enter");
                    }
                    let (st, rest) = submit(self, input);
                    let mut actions: Vec<FormAction> = Vec::new();
                    actions.push(FormAction::PreventDefault);
                    let ghost rv = action_views(rest@);
                    let mut rest = rest;
                    actions.append(&mut rest);
                    assert(action_views(actions@) =~= seq![ActionView::PreventDefault] + rv);
                    (st, actions)
                } else {
                    proof {
                        reveal_strlit("Enter");
                    }
                    let actions: Vec<FormAction> = Vec::new();
                    assert(action_views(actions@) =~= Seq::<ActionView>::empty());
                    (self, actions)
                }
            },
            FormEvent::Answered { result } => {
                let actions: Vec<FormAction> = Vec::new();
                assert(action_views(actions@) =~= Seq::<ActionView>::empty());
                let response = match result {
                    Ok(short_url) => short_url,
                    Err(message) => {
                        let mut m = "Error: ".to_string();
                        m.append(message.as_str());
                        m
                    },
                };
                (FormState { response: Some(response), loading: false, copied: self.copied }, actions)
            },
            FormEvent::CopyClicked => {
                let mut actions: Vec<FormAction> = Vec::new();
                match &self.response {
                    Some(text) => {
                        actions.push(FormAction::WriteClipboard { text: text.clone() });
                        assert(action_views(actions@) =~= seq![
                            ActionView::WriteClipboard { text: text@ },
                        ]);
                    },
                    None => {
                        assert(action_views(actions@) =~= Seq::<ActionView>::empty());
                    },
                }
                (self, actions)
            },
            FormEvent::Copied => {
                let mut actions: Vec<FormAction> = Vec::new();
                actions.push(FormAction::StartCopyTimer { millis: COPY_NOTICE_MILLIS });
                assert(action_views(actions@) =~= seq![
                    ActionView::StartCopyTimer { millis: COPY_NOTICE_MILLIS },
                ]);
                (FormState { response: self.response, loading: self.loading, copied: true }, actions)
            },
            FormEvent::CopyTimeout => {
                let actions: Vec<FormAction> = Vec::new();
                assert(action_views(actions@) =~= Seq::<ActionView>::empty());
                (FormState { response: self.response, loading: self.loading, copied: false }, actions)
            },
        }
    }

    /// The label of the submit button.
    pub fn submit_label(&self) -> (r: &'static str)
        ensures
            r@ == if self.loading {
                "Loading..."@
            } else {
                "Submit"@
            },
    {
        if self.loading {
            "Loading..."
        } else {
            "Submit"
        }
    }

    /// The label of the copy button.
    pub fn copy_label(&self) -> (r: &'static str)
        ensures
            r@ == if self.copied {
                "Copied!"@
            } else {
                "Copy to clipboard"@
            },
    {
        if self.copied {
            "Copied!"
        } else {
            "Copy to clipboard"
        }
    }

    /// Whether the answer is shown as a link (with a copy button) rather
    /// than as a message: it is one when it starts with `http`.
    pub fn shows_link(&self) -> (r: bool)
        ensures
            r == (self.response matches Some(t) && t@.len() >= 4 && t@.take(4) == "http"@),
    {
        match &self.response {
            Some(t) => {
                let cs = crate::text::chars_of(t.as_str());
                proof {
                    reveal_strlit("http");
                }
                if cs.len() < 4 {
                    return false;
                }
                let r = cs[0] == 'h' && cs[1] == 't' && cs[2] == 't' && cs[3] == 'p';
                let ghost h = cs@.take(4);
                assert(h[0] == cs@[0] && h[1] == cs@[1] && h[2] == cs@[2] && h[3] == cs@[3]);
                assert("http"@[0] == 'h' && "http"@[1] == 't' && "http"@[2] == 't' && "http"@[3]
                    == 'p');
                if r {
                    assert(h =~= "http"@);
                }
                r
            },
            None => false,
        }
    }
}

} // verus!
