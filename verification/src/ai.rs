//! The chat-completion client: request framing, the endpoint, and the
//! reading of the service's answer.
use vstd::prelude::*;
use crate::error::BotError;
use crate::text::{append_chars, chars_of, string_from, strip_suffix_all, strip_suffix_all_exec};

verus! {

/// `reqwest::Client`, carried as an opaque value.
#[verifier::external_type_specification]
#[verifier::external_body]
pub struct ExHttpClient(reqwest::Client);

pub struct ChatMessage {
    pub role: String,
    pub content: String,
}

pub struct ChatRequest {
    pub model: String,
    pub messages: Vec<ChatMessage>,
}

pub struct ChatChoice {
    pub message: ChatMessageResponse,
}

pub struct ChatMessageResponse {
    pub content: String,
}

pub struct ChatResponse {
    pub choices: Vec<ChatChoice>,
}

/// The chat-completion endpoint under `base_url`: the base without its
/// trailing slashes, then `/chat/completions`.
pub open spec fn completions_url_spec(base_url: Seq<char>) -> Seq<char> {
    strip_suffix_all(base_url, seq!['/']) + "/chat/completions"@
}

/// Executable `completions_url_spec`.
pub fn completions_url(base_url: &str) -> (u: String)
    ensures
        u@ == completions_url_spec(base_url@),
{
    let b = chars_of(base_url);
    let mut slash: Vec<char> = Vec::new();
    slash.push('/');
    assert(slash@ =~= seq!['/']);
    let mut out = strip_suffix_all_exec(&b, &slash);
    append_chars(&mut out, &chars_of("/chat/completions"));
    string_from(&out)
}

/// The answer of the service: the content of its first choice, or an error
/// when it gave none.
pub fn first_choice_content(resp: ChatResponse) -> (r: Result<String, BotError>)
    ensures
        resp.choices@.len() == 0 ==> (r matches Err(BotError::Internal(m)) && m@
            == "No choices returned from AI API"@),
        resp.choices@.len() > 0 ==> r == Ok::<String, BotError>(resp.choices@[0].message.content),
{
    let mut choices = resp.choices;
    if choices.len() == 0 {
        return Err(BotError::Internal(String::from_str("No choices returned from AI API")));
    }
    let first = choices.remove(0);
    Ok(first.message.content)
}

/// The error for a non-success HTTP status: `AI API error: <status> - <body>`.
pub fn api_error(status: &str, body: &str) -> (e: BotError)
    ensures
        e matches BotError::Internal(m) && m@ == "AI API error: "@ + status@ + " - "@ + body@,
{
    let mut out = chars_of("AI API error: ");
    append_chars(&mut out, &chars_of(status));
    append_chars(&mut out, &chars_of(" - "));
    append_chars(&mut out, &chars_of(body));
    BotError::Internal(string_from(&out))
}

/// A client of an OpenAI-style chat-completion service.
pub struct AiClient {
    client: reqwest::Client,
    base_url: String,
    api_key: String,
}

impl AiClient {
    /// The base URL of the service.
    pub closed spec fn base_url_view(&self) -> Seq<char> {
        self.base_url@
    }

    /// The API key.
    pub closed spec fn api_key_view(&self) -> Seq<char> {
        self.api_key@
    }

    /// The HTTP client.
    pub closed spec fn client_view(&self) -> reqwest::Client {
        self.client
    }

    /// A client of the service at `base_url`, authenticated by `api_key`,
    /// that sends its requests through `client`.
    pub fn new(base_url: String, api_key: String, client: reqwest::Client) -> (c: Self)
        ensures
            c.base_url_view() == base_url@,
            c.api_key_view() == api_key@,
            c.client_view() == client,
    {
        AiClient { client, base_url, api_key }
    }

    /// The HTTP client that requests go through.
    pub fn http_client(&self) -> (c: &reqwest::Client)
        ensures
            *c == self.client_view(),
    {
        &self.client
    }

    /// The bearer token of the requests.
    pub fn api_key(&self) -> (k: &str)
        ensures
            k@ == self.api_key_view(),
    {
        self.api_key.as_str()
    }

    /// Where `generate` posts its request.
    pub fn endpoint(&self) -> (u: String)
        ensures
            u@ == completions_url_spec(self.base_url_view()),
    {
        completions_url(self.base_url.as_str())
    }

    /// The request body that `generate` posts.
    pub fn request(&self, model: &str, messages: Vec<ChatMessage>) -> (r: ChatRequest)
        ensures
            r.model@ == model@,
            r.messages == messages,
    {
        ChatRequest { model: String::from_str(model), messages }
    }
}

} // verus!
