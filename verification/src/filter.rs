//! Content classification: the prompt sent to the language model, how its
//! reply is read, and the filter that names the model and the Ollama
//! service.

use vstd::prelude::*;

use crate::text::{contains_seq, contains_str, digit_of, hex_char, push_char};

verus! {

/// How a text is classified.
#[derive(Debug, Clone, Copy, PartialEq, Eq, Structural)]
pub enum ContentClassification {
    Safe,
    Offensive,
}

impl ContentClassification {
    /// The name of the classification: `SAFE` or `OFFENSIVE`.
    pub fn label(&self) -> (r: String)
        ensures
            r@ == match self {
                ContentClassification::Safe => "SAFE"@,
                ContentClassification::Offensive => "OFFENSIVE"@,
            },
    {
        match self {
            ContentClassification::Safe => String::from_str("SAFE"),
            ContentClassification::Offensive => String::from_str("OFFENSIVE"),
        }
    }
}

/// What upper-casing `s` with `str::to_uppercase` gives.
pub uninterp spec fn uppercased(s: Seq<char>) -> Seq<char>;

/// Upper-cases a string (`str::to_uppercase`, Unicode upper-case mapping).
/// The contract claims only that the result depends on the text alone.
#[verifier::external_body]
fn to_uppercase(s: &str) -> (r: String)
    ensures
        r@ == uppercased(s@),
{
    s.to_uppercase()
}

/// How a reply, already upper-cased, classifies a text: offensive when it
/// contains the word `OFFENSIVE`, safe otherwise.
pub open spec fn classification_of_upper(upper: Seq<char>) -> ContentClassification {
    if contains_seq(upper, "OFFENSIVE"@) {
        ContentClassification::Offensive
    } else {
        ContentClassification::Safe
    }
}

/// An upper-cased reply is offensive exactly when `OFFENSIVE` stands at some
/// position of it, however long the reply and wherever the word stands; in
/// particular a reply with the word between any two texts is offensive.
pub proof fn lemma_offensive_anywhere(upper: Seq<char>, before: Seq<char>, after: Seq<char>)
    ensures
        (classification_of_upper(upper) == ContentClassification::Offensive) <==> exists|i: int|
            0 <= i && i + 9 <= upper.len() && #[trigger] upper.subrange(i, i + 9)
                == seq!['O', 'F', 'F', 'E', 'N', 'S', 'I', 'V', 'E'],
        classification_of_upper(before + seq!['O', 'F', 'F', 'E', 'N', 'S', 'I', 'V', 'E'] + after)
            == ContentClassification::Offensive,
{
    reveal_strlit("OFFENSIVE");
    let w = seq!['O', 'F', 'F', 'E', 'N', 'S', 'I', 'V', 'E'];
    assert("OFFENSIVE"@ =~= w);
    let s = before + w + after;
    assert(s.subrange(before.len() as int, before.len() as int + 9) =~= w);
    assert(crate::text::occurs_at(s, "OFFENSIVE"@, before.len() as int));
    if classification_of_upper(upper) == ContentClassification::Offensive {
        let i = choose|i: int| crate::text::occurs_at(upper, "OFFENSIVE"@, i);
        assert(upper.subrange(i, i + 9) == w);
    }
    if exists|i: int| 0 <= i && i + 9 <= upper.len() && #[trigger] upper.subrange(i, i + 9) == w {
        let i = choose|i: int| 0 <= i && i + 9 <= upper.len() && #[trigger] upper.subrange(i, i + 9) == w;
        assert(crate::text::occurs_at(upper, "OFFENSIVE"@, i));
    }
}

/// Reads an upper-cased reply of the model.
pub fn classify_upper_reply(upper: &str) -> (r: ContentClassification)
    ensures
        r == classification_of_upper(upper@),
{
    if contains_str(upper, "OFFENSIVE") {
        ContentClassification::Offensive
    } else {
        ContentClassification::Safe
    }
}

/// Reads a reply of the model: offensive when its upper-cased form contains
/// `OFFENSIVE`, safe otherwise.
pub fn classify_reply(reply: &str) -> (r: ContentClassification)
    ensures
        r == classification_of_upper(uppercased(reply@)),
{
    let upper = to_uppercase(reply);
    classify_upper_reply(upper.as_str())
}

/// The instructions that come before the text to classify.
pub const CLASSIFICATION_INSTRUCTIONS: &'static str = "You are a content filter for a news ticker application. \
    The text may be in any language including Dutch, English, German, French, Spanish, or other languages. \
    Classify the following text as OFFENSIVE or SAFE. \
    Mark as OFFENSIVE if the text contains: death, killing, murder, violence, accident, disaster, catastrophe, tragedy, trauma, or any graphic/horrific content. \
    This includes news about fatalities, violent crimes, accidents, natural disasters, and other traumatic events. \
    Text about politics, economics, sports, culture, or non-traumatic news should be marked SAFE. \
    Respond with ONLY the word OFFENSIVE or SAFE, with no other text or explanations.\n\nText: ";

/// The prompt that asks the model to classify `text`.
pub open spec fn classification_prompt(text: Seq<char>) -> Seq<char> {
    CLASSIFICATION_INSTRUCTIONS@ + text
}

/// The decimal digits of `n`, without leading zeros.
pub open spec fn decimal(n: nat) -> Seq<char>
    decreases n,
{
    if n < 10 {
        seq![digit_of(n as int)]
    } else {
        decimal(n / 10).push(digit_of((n % 10) as int))
    }
}

/// Appends the decimal digits of `n`.
fn push_decimal(s: &mut String, n: u16)
    ensures
        final(s)@ == old(s)@ + decimal(n as nat),
    decreases n,
{
    if n >= 10 {
        push_decimal(s, n / 10);
    }
    push_char(s, hex_char((n % 10) as u32));
    assert(final(s)@ =~= old(s)@ + decimal(n as nat)) by {
        if n >= 10 {
            assert(decimal(n as nat) == decimal((n / 10) as nat).push(digit_of((n % 10) as int)));
        }
    }
}

/// The address of the list of models of an Ollama service with this scheme,
/// host and port; `localhost` and port 11434 stand in for a missing host or
/// port.
pub open spec fn tags_url_text(scheme: Seq<char>, host: Option<Seq<char>>, port: Option<u16>) -> Seq<char> {
    scheme + "://"@ + match host {
        Some(h) => h,
        None => "localhost"@,
    } + ":"@ + decimal(match port {
        Some(p) => p as nat,
        None => 11434nat,
    }) + "/api/tags"@
}

/// The address of the list of models of an Ollama service with this scheme,
/// host and port.
pub fn tags_url(scheme: &str, host: Option<&str>, port: Option<u16>) -> (r: String)
    ensures
        r@ == tags_url_text(scheme@, match host {
            Some(h) => Some(h@),
            None => None,
        }, port),
{
    let mut r = String::from_str(scheme);
    r.append("://");
    match host {
        Some(h) => r.append(h),
        None => r.append("localhost"),
    }
    r.append(":");
    match port {
        Some(p) => push_decimal(&mut r, p),
        None => push_decimal(&mut r, 11434),
    }
    r.append("/api/tags");
    r
}

#[verifier::external_type_specification]
#[verifier::external_body]
pub struct ExOllama(ollama_rs::Ollama);

#[verifier::external_type_specification]
#[verifier::external_body]
pub struct ExUrlParseError(url::ParseError);

#[verifier::external_type_specification]
#[verifier::external_body]
pub struct ExHttpClient(reqwest::Client);

#[verifier::external_type_specification]
#[verifier::external_body]
pub struct ExHttpError(reqwest::Error);

/// A parsed URL as plain values: its serialization (what `Display` writes),
/// its scheme, its host as text, and its port or the default port of its
/// scheme.
pub struct UrlParts {
    pub text: String,
    pub scheme: String,
    pub host: Option<String>,
    pub port: Option<u16>,
}

impl View for UrlParts {
    type V = (Seq<char>, Seq<char>, Option<Seq<char>>, Option<u16>);

    open spec fn view(&self) -> (Seq<char>, Seq<char>, Option<Seq<char>>, Option<u16>) {
        (self.text@, self.scheme@, match self.host {
            Some(h) => Some(h@),
            None => None,
        }, self.port)
    }
}

/// The serialization, scheme, host and port (or default port) of the URL
/// that `url::Url::parse` gives for `s`; `None` when it refuses `s`.
pub uninterp spec fn parsed_url(s: Seq<char>) -> Option<(Seq<char>, Seq<char>, Option<Seq<char>>, Option<u16>)>;

/// Parses a URL (`url::Url::parse`) and reads its serialization, scheme,
/// host and port (`as_str`, `scheme`, `host_str`, `port_or_known_default`).
/// The contract claims that whether it parses, and those parts, depend on
/// the text alone.
#[verifier::external_body]
fn parse_url(s: &str) -> (r: Result<UrlParts, url::ParseError>)
    ensures
        r is Ok <==> parsed_url(s@) is Some,
        r matches Ok(p) ==> p@ == parsed_url(s@)->0,
{
    url::Url::parse(s).map(|u| UrlParts {
        text: u.as_str().to_string(),
        scheme: u.scheme().to_string(),
        host: u.host_str().map(|h| h.to_string()),
        port: u.port_or_known_default(),
    })
}

/// Builds an HTTP client with the default settings
/// (`reqwest::ClientBuilder::build`). Where `reqwest::Client::new` panics
/// (no TLS backend can be set up, or the resolver settings cannot be read)
/// this returns the error instead. Whether it succeeds depends on the
/// machine, so nothing is stated.
#[verifier::external_body]
fn build_http_client() -> Result<reqwest::Client, reqwest::Error> {
    reqwest::Client::builder().build()
}

/// Makes an Ollama client for the service at `address` that sends its
/// requests with `http` (`ollama_rs::OllamaBuilder`: `url`, `reqwest_client`,
/// `build`), and gives back, as a ghost value, the address it was made for.
/// `OllamaBuilder::url` parses the text with `url::Url::parse` and panics
/// when that fails (ollama-rs's own `IntoUrl` for a parsed `Url` is the
/// identity, so a URL without a host does not panic); the `requires` leaves
/// unparsable text out. Nothing is stated of the client itself.
#[verifier::external_body]
fn ollama_client(address: &str, http: reqwest::Client) -> (r: (ollama_rs::Ollama, Ghost<Seq<char>>))
    requires
        parsed_url(address@) is Some,
    ensures
        r.1@ == address@,
{
    (ollama_rs::Ollama::builder().url(address).reqwest_client(http).build(), Ghost(address@))
}

/// The address of the Ollama service that the filter uses.
pub const OLLAMA_ADDRESS: &'static str = "http://localhost:11434";

/// The parts of the parsed Ollama address.
pub open spec fn ollama_address() -> (Seq<char>, Seq<char>, Option<Seq<char>>, Option<u16>) {
    parsed_url(OLLAMA_ADDRESS@)->0
}

/// A content filter: a language model, named by `model`, served by Ollama at
/// `http://localhost:11434`; the address is not configurable.
pub struct ContentFilter {
    ollama: ollama_rs::Ollama,
    model: String,
    address: UrlParts,
    client_address: Ghost<Seq<char>>,
}

impl ContentFilter {
    /// The filter's client was made for the Ollama address, and the filter
    /// keeps the parts of that address as parsed.
    #[verifier::type_invariant]
    spec fn address_is_parsed(self) -> bool {
        &&& parsed_url(OLLAMA_ADDRESS@) is Some
        &&& self.address@ == ollama_address()
        &&& self.client_address@ == OLLAMA_ADDRESS@
    }

    /// The address that the filter's client was made for.
    pub closed spec fn client_address(&self) -> Seq<char> {
        self.client_address@
    }

    /// The name of the model, as characters.
    pub closed spec fn model_name(&self) -> Seq<char> {
        self.model@
    }

    /// A filter that asks `model` through the Ollama service on localhost.
    /// Fails when that address does not parse as a URL, or when no HTTP
    /// client can be built on this machine.
    pub fn new(model: String) -> (r: Result<Self, String>)
        ensures
            parsed_url(OLLAMA_ADDRESS@) is None ==> r is Err,
            r is Ok ==> parsed_url(OLLAMA_ADDRESS@) is Some,
            r matches Ok(f) ==> f.model_name() == model@ && f.client_address() == OLLAMA_ADDRESS@,
            r matches Err(m) ==> (exists|e: url::ParseError, why: String|
                vstd::string::to_string_from_display_ensures::<url::ParseError>(&e, why) && m@ == why@)
                || (exists|e: reqwest::Error, why: String|
                vstd::string::to_string_from_display_ensures::<reqwest::Error>(&e, why) && m@ == why@),
    {
        let address = match parse_url(OLLAMA_ADDRESS) {
            Ok(parts) => parts,
            Err(e) => {
                let why = e.to_string();
                assert(vstd::string::to_string_from_display_ensures::<url::ParseError>(&e, why));
                return Err(why);
            },
        };
        let http = match build_http_client() {
            Ok(c) => c,
            Err(e) => {
                let why = e.to_string();
                assert(vstd::string::to_string_from_display_ensures::<reqwest::Error>(&e, why));
                return Err(why);
            },
        };
        let (ollama, client_address) = ollama_client(OLLAMA_ADDRESS, http);
        Ok(ContentFilter { ollama, model, address, client_address })
    }

    /// The name of the model.
    pub fn model(&self) -> (r: &str)
        ensures
            r@ == self.model_name(),
    {
        self.model.as_str()
    }

    /// The Ollama client that the filter holds.
    pub closed spec fn client(&self) -> ollama_rs::Ollama {
        self.ollama
    }

    /// The Ollama client, made for [`OLLAMA_ADDRESS`].
    pub fn ollama(&self) -> (r: &ollama_rs::Ollama)
        ensures
            *r == self.client(),
            self.client_address() == OLLAMA_ADDRESS@,
    {
        proof {
            use_type_invariant(self);
        }
        &self.ollama
    }

    /// The URL of the Ollama service, as text: the serialization of the
    /// parsed Ollama address.
    pub fn endpoint(&self) -> (r: String)
        ensures
            r@ == ollama_address().0,
    {
        proof {
            use_type_invariant(self);
        }
        self.address.text.clone()
    }

    /// The address at which the health of the Ollama service is checked: the
    /// list of models at the scheme, host and port of the parsed Ollama
    /// address (see [`tags_url`]).
    pub fn health_url(&self) -> (r: String)
        ensures
            r@ == tags_url_text(ollama_address().1, ollama_address().2, ollama_address().3),
    {
        proof {
            use_type_invariant(self);
        }
        let host = match &self.address.host {
            Some(h) => Some(h.as_str()),
            None => None,
        };
        tags_url(self.address.scheme.as_str(), host, self.address.port)
    }

    /// The prompt that asks the model to classify `text`.
    pub fn build_classification_prompt(&self, text: &str) -> (r: String)
        ensures
            r@ == classification_prompt(text@),
    {
        let mut r = String::from_str(CLASSIFICATION_INSTRUCTIONS);
        r.append(text);
        r
    }
}

} // verus!
