//! MCP servers, as they are configured and as they are reached.
use vstd::prelude::*;
use vstd::string::*;
use crate::config;
use crate::config::expand;
use crate::text;
use crate::text::same_text;

verus! {

// ---------- Addresses ----------

/// The host of an address.
#[derive(Debug)]
pub enum UrlHost {
    Missing,
    Domain(String),
    Ipv4(u32),
    Ipv6(u128),
}

/// The parts of an address that decide whether it is accepted.
#[derive(Debug)]
pub struct UrlParts {
    pub scheme: String,
    pub username: String,
    pub password: bool,
    pub host: UrlHost,
}

/// What a `UrlHost` holds.
pub enum HostPart {
    Missing,
    Domain(Seq<char>),
    Ipv4(u32),
    Ipv6(u128),
}

/// What a `UrlParts` holds.
pub struct UrlModel {
    pub scheme: Seq<char>,
    pub username: Seq<char>,
    pub password: bool,
    pub host: HostPart,
}

impl View for UrlParts {
    type V = UrlModel;

    open spec fn view(&self) -> UrlModel {
        UrlModel {
            scheme: self.scheme@,
            username: self.username@,
            password: self.password,
            host: match self.host {
                UrlHost::Missing => HostPart::Missing,
                UrlHost::Domain(domain) => HostPart::Domain(domain@),
                UrlHost::Ipv4(address) => HostPart::Ipv4(address),
                UrlHost::Ipv6(address) => HostPart::Ipv6(address),
            },
        }
    }
}

/// What a result of reading an address holds.
pub open spec fn parts_result(r: Result<UrlParts, String>) -> Result<UrlModel, Seq<char>> {
    match r {
        Ok(parts) => Ok(parts@),
        Err(error) => Err(error@),
    }
}

/// The parts of an address, as `url::Url::parse` reads it; the text of its error where it reads
/// none.
pub uninterp spec fn url_parsed(text: Seq<char>) -> Result<UrlModel, Seq<char>>;

/// Reads an address with `url::Url::parse`: its scheme, its username, whether it has a
/// password, and its host, with an IP address as a number. The outcome is named.
#[verifier::external_body]
fn parse_url(text: &str) -> (r: Result<UrlParts, String>)
    ensures
        parts_result(r) == url_parsed(text@),
{
    let url = url::Url::parse(text).map_err(|error| error.to_string())?;
    let host = match url.host() {
        None => UrlHost::Missing,
        Some(url::Host::Domain(domain)) => UrlHost::Domain(domain.to_owned()),
        Some(url::Host::Ipv4(address)) => UrlHost::Ipv4(address.into()),
        Some(url::Host::Ipv6(address)) => UrlHost::Ipv6(address.into()),
    };
    let scheme = url.scheme().to_owned();
    let username = url.username().to_owned();
    Ok(UrlParts { scheme, username, password: url.password().is_some(), host })
}

/// Why an address is refused.
#[derive(Debug, PartialEq, Eq)]
pub enum UrlError {
    /// It is none, with the reason.
    Invalid(String),
    /// It holds a username or a password.
    Credentials,
    /// It is neither secure nor local.
    Insecure,
}

/// What a `UrlError` holds.
pub enum UrlFault {
    Invalid(Seq<char>),
    Credentials,
    Insecure,
}

impl View for UrlError {
    type V = UrlFault;

    open spec fn view(&self) -> UrlFault {
        match self {
            UrlError::Invalid(reason) => UrlFault::Invalid(reason@),
            UrlError::Credentials => UrlFault::Credentials,
            UrlError::Insecure => UrlFault::Insecure,
        }
    }
}

impl UrlFault {
    /// The message of the error.
    pub open spec fn text(self) -> Seq<char> {
        match self {
            UrlFault::Invalid(reason) => "invalid MCP URL: "@ + reason,
            UrlFault::Credentials =>
                "MCP URL must not contain embedded credentials; use headers instead"@,
            UrlFault::Insecure => "MCP HTTP must use HTTPS except on localhost"@,
        }
    }
}

impl UrlError {
    /// The message of the error.
    pub fn message(&self) -> (r: String)
        ensures
            r@ == self@.text(),
    {
        match self {
            UrlError::Invalid(reason) => {
                let mut text = "invalid MCP URL: ".to_owned();
                text.append(reason.as_str());
                text
            },
            UrlError::Credentials =>
                "MCP URL must not contain embedded credentials; use headers instead".to_owned(),
            UrlError::Insecure => "MCP HTTP must use HTTPS except on localhost".to_owned(),
        }
    }
}

/// The host is this machine: `localhost`, an IPv4 address that starts with 127, or the IPv6
/// address 1.
pub open spec fn is_local(host: HostPart) -> bool {
    match host {
        HostPart::Missing => false,
        HostPart::Domain(domain) => domain == "localhost"@,
        HostPart::Ipv4(address) => address / 0x100_0000 == 127,
        HostPart::Ipv6(address) => address == 1,
    }
}

/// Why an address with these parts is refused, if it is.
pub open spec fn url_fault(url: Result<UrlModel, Seq<char>>) -> Option<UrlFault> {
    match url {
        Err(reason) => Some(UrlFault::Invalid(reason)),
        Ok(url) => if url.username.len() > 0 || url.password {
            Some(UrlFault::Credentials)
        } else if url.scheme == "https"@ || (url.scheme == "http"@ && is_local(url.host)) {
            None
        } else {
            Some(UrlFault::Insecure)
        },
    }
}

/// What a judgement on an address holds.
pub open spec fn judgement(r: Result<(), UrlError>) -> Option<UrlFault> {
    match r {
        Ok(()) => None,
        Err(error) => Some(error@),
    }
}

/// Tells whether the host is this machine.
fn local_host(host: &UrlHost) -> (r: bool)
    ensures
        r == is_local(
            match *host {
                UrlHost::Missing => HostPart::Missing,
                UrlHost::Domain(domain) => HostPart::Domain(domain@),
                UrlHost::Ipv4(address) => HostPart::Ipv4(address),
                UrlHost::Ipv6(address) => HostPart::Ipv6(address),
            },
        ),
{
    match host {
        UrlHost::Missing => false,
        UrlHost::Domain(domain) => same_text(domain.as_str(), "localhost"),
        UrlHost::Ipv4(address) => *address / 0x100_0000 == 127,
        UrlHost::Ipv6(address) => *address == 1,
    }
}

/// Accepts secure addresses and local ones, without credentials.
pub fn judge_url(url: Result<UrlParts, String>) -> (r: Result<(), UrlError>)
    ensures
        judgement(r) == url_fault(parts_result(url)),
{
    match url {
        Err(reason) => Err(UrlError::Invalid(reason)),
        Ok(url) => {
            if url.username.as_str().unicode_len() > 0 || url.password {
                return Err(UrlError::Credentials);
            }
            if same_text(url.scheme.as_str(), "https") || (same_text(url.scheme.as_str(), "http")
                && local_host(&url.host)) {
                Ok(())
            } else {
                Err(UrlError::Insecure)
            }
        },
    }
}

/// Accepts secure addresses and local ones, without credentials.
pub fn validate_mcp_url(url: &str) -> (r: Result<(), UrlError>)
    ensures
        judgement(r) == url_fault(url_parsed(url@)),
{
    judge_url(parse_url(url))
}

/// An address that is accepted is secure or local, and holds no credentials.
pub proof fn accepted_urls_are_secure_or_local(url: UrlModel)
    requires
        url_fault(Ok(url)) is None,
    ensures
        url.scheme == "https"@ || is_local(url.host),
        url.username.len() == 0,
        !url.password,
{
}

// ---------- Headers ----------

/// The name of a header, as `http::HeaderName` reads it; none where it reads none.
pub uninterp spec fn header_name_parsed(text: Seq<char>) -> Option<Seq<char>>;

/// Reads the name of a header with `http::HeaderName`'s `from_str`, which writes it in lower
/// case. The name is named; the text of the error is always the same.
#[verifier::external_body]
fn parse_header_name(text: &str) -> (r: Result<String, String>)
    ensures
        match header_name_parsed(text@) {
            Some(name) => config::text_result(r) == Ok::<Seq<char>, Seq<char>>(name),
            None => config::text_result(r) == Err::<Seq<char>, Seq<char>>("invalid HTTP header name"@),
        },
{
    text.parse::<reqwest::header::HeaderName>().map(|name| name.as_str().to_owned()).map_err(
        |error| error.to_string(),
    )
}

/// `text` can be the value of a header: it holds no control characters but tabs.
pub open spec fn is_header_value(text: Seq<char>) -> bool {
    forall|i: int|
        0 <= i < text.len() ==> (#[trigger] text[i] >= ' ' && text[i] != '\x7f') || text[i] == '\t'
}

/// Reads the value of a header with `http::HeaderValue`'s `from_str`, which accepts every
/// text without control characters but tabs, and nothing else. The text of the error is always
/// the same.
#[verifier::external_body]
fn check_header_value(text: &str) -> (r: Result<(), String>)
    ensures
        r is Ok <==> is_header_value(text@),
        r matches Err(error) ==> error@ == "failed to parse header value"@,
{
    text.parse::<reqwest::header::HeaderValue>().map(|_| ()).map_err(|error| error.to_string())
}

/// The header with the name `name`, when `parsed` is what the name is read as and `expanded`
/// comes of expanding its value.
pub open spec fn header_from(
    parsed: Option<Seq<char>>,
    expanded: Result<Seq<char>, Seq<char>>,
) -> Result<(Seq<char>, Seq<char>), Seq<char>> {
    match parsed {
        None => Err("invalid MCP header name: invalid HTTP header name"@),
        Some(name) => match expanded {
            Err(error) => Err(error),
            Ok(value) => if is_header_value(value) {
                Ok((name, value))
            } else {
                Err("invalid MCP header value: failed to parse header value"@)
            },
        },
    }
}

/// The first `n` headers, when `expansions` come of expanding their values; the error of the
/// first that is none.
pub open spec fn headers_from(
    headers: Seq<(String, String)>,
    expansions: Seq<Result<Seq<char>, Seq<char>>>,
    n: nat,
) -> Result<Seq<(Seq<char>, Seq<char>)>, Seq<char>>
    decreases n,
{
    if n == 0 {
        Ok(Seq::empty())
    } else {
        match headers_from(headers, expansions, (n - 1) as nat) {
            Err(error) => Err(error),
            Ok(earlier) => match header_from(
                header_name_parsed(headers[n - 1].0@),
                expansions[n - 1],
            ) {
                Ok(header) => Ok(earlier.push(header)),
                Err(error) => Err(error),
            },
        }
    }
}

/// What a list of pairs holds.
pub open spec fn pair_views(pairs: Seq<(String, String)>) -> Seq<(Seq<char>, Seq<char>)> {
    Seq::new(pairs.len(), |i: int| (pairs[i].0@, pairs[i].1@))
}

/// What a result of pairs holds.
pub open spec fn pairs_result(r: Result<Vec<(String, String)>, String>) -> Result<
    Seq<(Seq<char>, Seq<char>)>,
    Seq<char>,
> {
    match r {
        Ok(pairs) => Ok(pair_views(pairs@)),
        Err(error) => Err(error@),
    }
}

/// The values of `pairs`.
pub open spec fn second_views(pairs: Seq<(String, String)>) -> Seq<Seq<char>> {
    Seq::new(pairs.len(), |i: int| pairs[i].1@)
}

/// `expansions` may come of expanding `values`, each of its own.
pub open spec fn may_expand_all(
    values: Seq<Seq<char>>,
    expansions: Seq<Result<Seq<char>, Seq<char>>>,
) -> bool {
    expansions.len() == values.len() && forall|i: int|
        0 <= i < values.len() ==> config::may_expand_to(values[i], #[trigger] expansions[i])
}

/// One text for each value that may come of expanding it.
spec fn some_expansions(values: Seq<Seq<char>>) -> Seq<Result<Seq<char>, Seq<char>>> {
    Seq::new(values.len(), |i: int| Ok::<Seq<char>, Seq<char>>(config::one_expansion(values[i])))
}

proof fn lemma_some_expansions(values: Seq<Seq<char>>)
    ensures
        may_expand_all(values, some_expansions(values)),
{
    assert forall|i: int| 0 <= i < values.len() implies config::may_expand_to(
        values[i],
        #[trigger] some_expansions(values)[i],
    ) by {
        config::lemma_one_expansion(values[i]);
    }
}

proof fn lemma_header_texts()
    ensures
        "invalid MCP header name: "@ + "invalid HTTP header name"@
            == "invalid MCP header name: invalid HTTP header name"@,
        "invalid MCP header value: "@ + "failed to parse header value"@
            == "invalid MCP header value: failed to parse header value"@,
{
    reveal_strlit("invalid MCP header name: ");
    reveal_strlit("invalid HTTP header name");
    reveal_strlit("invalid MCP header name: invalid HTTP header name");
    reveal_strlit("invalid MCP header value: ");
    reveal_strlit("failed to parse header value");
    reveal_strlit("invalid MCP header value: failed to parse header value");
    assert("invalid MCP header name: "@ + "invalid HTTP header name"@
        =~= "invalid MCP header name: invalid HTTP header name"@);
    assert("invalid MCP header value: "@ + "failed to parse header value"@
        =~= "invalid MCP header value: failed to parse header value"@);
}

/// The header with the name `name`, when `expanded` comes of expanding its value.
pub fn header_entry(name: &str, expanded: Result<String, String>) -> (r: Result<
    (String, String),
    String,
>)
    ensures
        match header_from(header_name_parsed(name@), config::text_result(expanded)) {
            Ok((name, value)) => r matches Ok(entry) && entry.0@ == name && entry.1@ == value,
            Err(error) => r matches Err(e) && e@ == error,
        },
{
    match parse_header_name(name) {
        Err(cause) => {
            proof {
                lemma_header_texts();
            }
            let mut error = "invalid MCP header name: ".to_owned();
            error.append(cause.as_str());
            Err(error)
        },
        Ok(name) => match expanded {
            Err(error) => Err(error),
            Ok(value) => match check_header_value(value.as_str()) {
                Ok(()) => Ok((name, value)),
                Err(cause) => {
                    proof {
                        lemma_header_texts();
                    }
                    let mut error = "invalid MCP header value: ".to_owned();
                    error.append(cause.as_str());
                    Err(error)
                },
            },
        },
    }
}

proof fn lemma_headers_fail(
    headers: Seq<(String, String)>,
    expansions: Seq<Result<Seq<char>, Seq<char>>>,
    n: nat,
    m: nat,
)
    requires
        n <= m,
        headers_from(headers, expansions, n) is Err,
    ensures
        headers_from(headers, expansions, m) == headers_from(headers, expansions, n),
    decreases m,
{
    if n < m {
        lemma_headers_fail(headers, expansions, n, (m - 1) as nat);
    }
}

proof fn lemma_headers_prefix(
    headers: Seq<(String, String)>,
    a: Seq<Result<Seq<char>, Seq<char>>>,
    b: Seq<Result<Seq<char>, Seq<char>>>,
    n: nat,
)
    requires
        forall|i: int| 0 <= i < n ==> a[i] == b[i],
    ensures
        headers_from(headers, a, n) == headers_from(headers, b, n),
    decreases n,
{
    if n > 0 {
        lemma_headers_prefix(headers, a, b, (n - 1) as nat);
    }
}

/// The headers of a server, with their values expanded.
pub fn mcp_headers(headers: &Vec<(String, String)>) -> (r: Result<Vec<(String, String)>, String>)
    ensures
        exists|expansions: Seq<Result<Seq<char>, Seq<char>>>|
            {
                &&& may_expand_all(second_views(headers@), expansions)
                &&& pairs_result(r) == #[trigger] headers_from(
                    headers@,
                    expansions,
                    headers@.len(),
                )
            },
        r matches Ok(out) ==> config::are_outcomes(second_views(headers@), second_views(out@)),
{
    let mut out: Vec<(String, String)> = Vec::new();
    let mut i: usize = 0;
    let ghost values = second_views(headers@);
    let ghost mut expansions = some_expansions(values);
    proof {
        lemma_some_expansions(values);
    }
    assert(pair_views(out@) =~= Seq::empty());
    while i < headers.len()
        invariant
            i <= headers@.len(),
            values == second_views(headers@),
            may_expand_all(values, expansions),
            headers_from(headers@, expansions, i as nat) == Ok::<_, Seq<char>>(pair_views(out@)),
            out@.len() == i,
            forall|k: int| 0 <= k < i ==> config::is_outcome(values[k], (#[trigger] out@[k]).1@),
        decreases headers.len() - i,
    {
        let ghost earlier = pair_views(out@);
        let expanded = expand(headers[i].1.as_str());
        assert(values[i as int] == headers@[i as int].1@);
        proof {
            let before = expansions;
            expansions = before.update(i as int, config::text_result(expanded));
            lemma_headers_prefix(headers@, before, expansions, i as nat);
            assert forall|k: int| 0 <= k < values.len() implies config::may_expand_to(
                values[k],
                #[trigger] expansions[k],
            ) by {
                assert(config::may_expand_to(values[k], before[k]));
            }
        }
        match header_entry(headers[i].0.as_str(), expanded) {
            Ok(entry) => {
                out.push(entry);
                assert(pair_views(out@) =~= earlier.push((entry.0@, entry.1@)));
            },
            Err(error) => {
                proof {
                    lemma_headers_fail(headers@, expansions, (i + 1) as nat, headers@.len());
                }
                return Err(error);
            },
        }
        i += 1;
    }
    assert(pairs_result(Ok(out)) == headers_from(headers@, expansions, headers@.len()));
    Ok(out)
}

// ---------- Servers ----------

/// A server that is started as a program.
#[derive(Debug)]
pub struct StdioServer {
    pub command: String,
    pub args: Vec<String>,
    pub env: Vec<(String, String)>,
}

/// A server that is reached by HTTP.
#[derive(Debug)]
pub struct HttpServer {
    pub url: String,
    pub headers: Vec<(String, String)>,
}

/// A server, as it is configured.
#[derive(Debug)]
pub enum McpServer {
    Stdio(StdioServer),
    Http(HttpServer),
}

/// `expansions` put together, or the first error among them.
pub open spec fn all_expanded(expansions: Seq<Result<Seq<char>, Seq<char>>>) -> Result<
    Seq<Seq<char>>,
    Seq<char>,
>
    decreases expansions.len(),
{
    if expansions.len() == 0 {
        Ok(Seq::empty())
    } else {
        match (all_expanded(expansions.drop_last()), expansions.last()) {
            (Err(error), _) => Err(error),
            (Ok(texts), Ok(text)) => Ok(texts.push(text)),
            (Ok(_), Err(error)) => Err(error),
        }
    }
}

/// What a result of texts holds.
pub open spec fn texts_result(r: Result<Vec<String>, String>) -> Result<Seq<Seq<char>>, Seq<char>> {
    match r {
        Ok(v) => Ok(text::texts(v@)),
        Err(error) => Err(error@),
    }
}

proof fn lemma_all_fail(expansions: Seq<Result<Seq<char>, Seq<char>>>, n: int)
    requires
        0 <= n <= expansions.len(),
        all_expanded(expansions.take(n)) is Err,
    ensures
        all_expanded(expansions) == all_expanded(expansions.take(n)),
    decreases expansions.len(),
{
    if n == expansions.len() {
        assert(expansions.take(n) =~= expansions);
    } else {
        assert(expansions.drop_last().take(n) =~= expansions.take(n));
        lemma_all_fail(expansions.drop_last(), n);
    }
}

/// Every one of `values`, expanded.
pub fn expand_all(values: &Vec<String>) -> (r: Result<Vec<String>, String>)
    ensures
        exists|expansions: Seq<Result<Seq<char>, Seq<char>>>|
            {
                &&& may_expand_all(text::texts(values@), expansions)
                &&& texts_result(r) == #[trigger] all_expanded(expansions)
            },
        r matches Ok(out) ==> config::are_outcomes(text::texts(values@), text::texts(out@)),
{
    let mut out: Vec<String> = Vec::new();
    let mut i: usize = 0;
    let ghost views = text::texts(values@);
    let ghost mut expansions = some_expansions(views);
    proof {
        lemma_some_expansions(views);
    }
    assert(text::texts(out@) =~= Seq::empty());
    assert(expansions.take(0) =~= Seq::empty());
    while i < values.len()
        invariant
            i <= values@.len(),
            views == text::texts(values@),
            may_expand_all(views, expansions),
            all_expanded(expansions.take(i as int)) == Ok::<_, Seq<char>>(text::texts(out@)),
            out@.len() == i,
            forall|k: int| 0 <= k < i ==> config::is_outcome(views[k], (#[trigger] out@[k])@),
        decreases values.len() - i,
    {
        let ghost earlier = text::texts(out@);
        let expanded = expand(values[i].as_str());
        proof {
            let before = expansions;
            expansions = before.update(i as int, config::text_result(expanded));
            assert(expansions.take(i as int) =~= before.take(i as int));
            assert(expansions.take(i + 1).drop_last() =~= expansions.take(i as int));
            assert forall|k: int| 0 <= k < views.len() implies config::may_expand_to(
                views[k],
                #[trigger] expansions[k],
            ) by {
                assert(config::may_expand_to(views[k], before[k]));
            }
        }
        match expanded {
            Ok(text) => {
                out.push(text);
                assert(text::texts(out@) =~= earlier.push(text@));
            },
            Err(error) => {
                proof {
                    lemma_all_fail(expansions, i + 1);
                }
                return Err(error);
            },
        }
        i += 1;
    }
    assert(expansions.take(i as int) =~= expansions);
    Ok(out)
}

/// Every value of `pairs`, expanded, each with its name.
pub fn expand_values(pairs: &Vec<(String, String)>) -> (r: Result<Vec<(String, String)>, String>)
    ensures
        exists|expansions: Seq<Result<Seq<char>, Seq<char>>>|
            {
                &&& may_expand_all(second_views(pairs@), expansions)
                &&& match #[trigger] all_expanded(expansions) {
                    Ok(values) => r matches Ok(out) && pair_views(out@) == Seq::new(
                        pairs@.len(),
                        |i: int| (pairs@[i].0@, values[i]),
                    ),
                    Err(error) => r matches Err(e) && e@ == error,
                }
            },
        r matches Ok(out) ==> config::are_outcomes(second_views(pairs@), second_views(out@)),
{
    let mut values: Vec<String> = Vec::new();
    let mut i: usize = 0;
    while i < pairs.len()
        invariant
            i <= pairs@.len(),
            values@.len() == i,
            forall|k: int| 0 <= k < i ==> (#[trigger] values@[k])@ == pairs@[k].1@,
        decreases pairs.len() - i,
    {
        values.push(pairs[i].1.clone());
        i += 1;
    }
    assert(text::texts(values@) =~= second_views(pairs@));
    let result = expand_all(&values);
    let ghost expansions = choose|expansions: Seq<Result<Seq<char>, Seq<char>>>|
        {
            &&& may_expand_all(text::texts(values@), expansions)
            &&& texts_result(result) == #[trigger] all_expanded(expansions)
        };
    match result {
        Err(error) => Err(error),
        Ok(expanded) => {
            proof {
                lemma_all_expanded_len(expansions);
            }
            let mut out: Vec<(String, String)> = Vec::new();
            i = 0;
            while i < pairs.len()
                invariant
                    i <= pairs@.len(),
                    expanded@.len() == pairs@.len(),
                    out@.len() == i,
                    forall|k: int|
                        0 <= k < i ==> (#[trigger] out@[k]).0@ == pairs@[k].0@ && out@[k].1@
                            == expanded@[k]@,
                decreases pairs.len() - i,
            {
                out.push((pairs[i].0.clone(), expanded[i].clone()));
                i += 1;
            }
            assert(second_views(out@) =~= text::texts(expanded@));
            proof {
                let values = text::texts(expanded@);
                assert(pair_views(out@) =~= Seq::new(
                    pairs@.len(),
                    |i: int| (pairs@[i].0@, values[i]),
                ));
            }
            Ok(out)
        },
    }
}

proof fn lemma_all_expanded_len(expansions: Seq<Result<Seq<char>, Seq<char>>>)
    ensures
        all_expanded(expansions) matches Ok(values) ==> values.len() == expansions.len(),
    decreases expansions.len(),
{
    if expansions.len() > 0 {
        lemma_all_expanded_len(expansions.drop_last());
    }
}

/// How a server that is reached by HTTP is reached.
#[derive(Debug)]
pub struct HttpTarget {
    pub url: String,
    pub headers: Vec<(String, String)>,
}

/// How a server is reached by HTTP, when `url` comes of expanding its address and `headers`
/// are its headers: only at an address that is accepted.
pub open spec fn http_fault(
    url: Result<Seq<char>, Seq<char>>,
    headers: Result<Seq<(Seq<char>, Seq<char>)>, Seq<char>>,
) -> Option<Seq<char>> {
    match url {
        Err(error) => Some(error),
        Ok(url) => match url_fault(url_parsed(url)) {
            Some(error) => Some(error.text()),
            None => match headers {
                Err(error) => Some(error),
                Ok(_) => None,
            },
        },
    }
}

impl HttpServer {
    /// How the server is reached.
    pub fn target(&self) -> (r: Result<HttpTarget, String>)
        ensures
            exists|
                url: Result<Seq<char>, Seq<char>>,
                expansions: Seq<Result<Seq<char>, Seq<char>>>,
            |
                {
                    let headers = headers_from(self.headers@, expansions, self.headers@.len());
                    &&& config::may_expand_to(self.url@, url)
                    &&& may_expand_all(second_views(self.headers@), expansions)
                    &&& match #[trigger] http_fault(
                        url,
                        #[trigger] headers_from(self.headers@, expansions, self.headers@.len()),
                    ) {
                        Some(error) => r matches Err(e) && e@ == error,
                        None => r matches Ok(target) && Ok::<Seq<char>, Seq<char>>(target.url@)
                            == url && Ok::<_, Seq<char>>(pair_views(target.headers@)) == headers,
                    }
                },
            r matches Ok(target) ==> config::is_outcome(self.url@, target.url@) && config::are_outcomes(
                second_views(self.headers@),
                second_views(target.headers@),
            ),
    {
        let url = expand(self.url.as_str());
        let ghost model = config::text_result(url);
        let headers = mcp_headers(&self.headers);
        let ghost expansions = choose|expansions: Seq<Result<Seq<char>, Seq<char>>>|
            {
                &&& may_expand_all(second_views(self.headers@), expansions)
                &&& pairs_result(headers) == #[trigger] headers_from(
                    self.headers@,
                    expansions,
                    self.headers@.len(),
                )
            };
        assert(http_fault(
            model,
            headers_from(self.headers@, expansions, self.headers@.len()),
        ) == http_fault(model, pairs_result(headers)));
        match url {
            Err(error) => Err(error),
            Ok(url) => match validate_mcp_url(url.as_str()) {
                Err(error) => Err(error.message()),
                Ok(()) => match headers {
                    Err(error) => Err(error),
                    Ok(headers) => Ok(HttpTarget { url, headers }),
                },
            },
        }
    }
}

impl StdioServer {
    /// The server with its command, its arguments and the values of its environment
    /// expanded.
    pub fn expanded(&self) -> (r: Result<StdioServer, String>)
        ensures
            exists|
                command: Result<Seq<char>, Seq<char>>,
                args: Seq<Result<Seq<char>, Seq<char>>>,
                env: Seq<Result<Seq<char>, Seq<char>>>,
            |
                {
                    &&& config::may_expand_to(self.command@, command)
                    &&& may_expand_all(text::texts(self.args@), args)
                    &&& may_expand_all(second_views(self.env@), env)
                    &&& #[trigger] started_as(r, *self, command, args, env)
                },
            r matches Ok(started) ==> config::is_outcome(self.command@, started.command@) && config::are_outcomes(
                text::texts(self.args@),
                text::texts(started.args@),
            ) && config::are_outcomes(second_views(self.env@), second_views(started.env@)),
    {
        let command = expand(self.command.as_str());
        let ghost c = config::text_result(command);
        let args = expand_all(&self.args);
        let ghost a = choose|expansions: Seq<Result<Seq<char>, Seq<char>>>|
            {
                &&& may_expand_all(text::texts(self.args@), expansions)
                &&& texts_result(args) == #[trigger] all_expanded(expansions)
            };
        let env = expand_values(&self.env);
        let ghost e = choose|expansions: Seq<Result<Seq<char>, Seq<char>>>|
            {
                &&& may_expand_all(second_views(self.env@), expansions)
                &&& match #[trigger] all_expanded(expansions) {
                    Ok(values) => env matches Ok(out) && pair_views(out@) == Seq::new(
                        self.env@.len(),
                        |i: int| (self.env@[i].0@, values[i]),
                    ),
                    Err(error) => env matches Err(e) && e@ == error,
                }
            };
        let r = match command {
            Err(error) => Err(error),
            Ok(command) => match args {
                Err(error) => Err(error),
                Ok(args) => match env {
                    Err(error) => Err(error),
                    Ok(env) => Ok(StdioServer { command, args, env }),
                },
            },
        };
        assert(started_as(r, *self, c, a, e));
        r
    }
}

/// `r` is how a server is started, when `command`, `args` and `env` come of expanding what is
/// configured; the first error stops it.
pub open spec fn started_as(
    r: Result<StdioServer, String>,
    server: StdioServer,
    command: Result<Seq<char>, Seq<char>>,
    args: Seq<Result<Seq<char>, Seq<char>>>,
    env: Seq<Result<Seq<char>, Seq<char>>>,
) -> bool {
    match (command, all_expanded(args), all_expanded(env)) {
        (Err(error), _, _) => r matches Err(e) && e@ == error,
        (Ok(_), Err(error), _) => r matches Err(e) && e@ == error,
        (Ok(_), Ok(_), Err(error)) => r matches Err(e) && e@ == error,
        (Ok(command), Ok(args), Ok(values)) => r matches Ok(started) && started.command@ == command
            && text::texts(started.args@) == args && pair_views(started.env@) == Seq::new(
            server.env@.len(),
            |i: int| (server.env@[i].0@, values[i]),
        ),
    }
}

// ---------- Laws ----------

/// Expansions put together are the expansions, each in its place; they fail with the first
/// error among them, and only with one.
proof fn lemma_all_expanded(expansions: Seq<Result<Seq<char>, Seq<char>>>)
    ensures
        match all_expanded(expansions) {
            Ok(values) => values.len() == expansions.len() && forall|i: int|
                0 <= i < expansions.len() ==> (#[trigger] expansions[i]) == Ok::<
                    Seq<char>,
                    Seq<char>,
                >(values[i]),
            Err(error) => exists|i: int|
                0 <= i < expansions.len() && (#[trigger] expansions[i]) == Err::<
                    Seq<char>,
                    Seq<char>,
                >(error) && forall|k: int| 0 <= k < i ==> (#[trigger] expansions[k]) is Ok,
        },
    decreases expansions.len(),
{
    if expansions.len() > 0 {
        let d = expansions.drop_last();
        lemma_all_expanded(d);
        match all_expanded(d) {
            Ok(earlier) => {
                if let Ok(values) = all_expanded(expansions) {
                    assert forall|i: int| 0 <= i < expansions.len() implies (
                    #[trigger] expansions[i]) == Ok::<Seq<char>, Seq<char>>(values[i]) by {
                        if i < d.len() {
                            assert(d[i] == expansions[i]);
                        }
                    }
                } else {
                    let last = expansions.len() - 1;
                    assert forall|k: int| 0 <= k < last implies (
                    #[trigger] expansions[k]) is Ok by {
                        assert(d[k] == expansions[k]);
                    }
                    assert(expansions[last] == expansions.last());
                }
            },
            Err(error) => {
                let i = choose|i: int|
                    0 <= i < d.len() && (#[trigger] d[i]) == Err::<Seq<char>, Seq<char>>(error)
                        && forall|k: int| 0 <= k < i ==> (#[trigger] d[k]) is Ok;
                assert(expansions[i] == d[i]);
                assert forall|k: int| 0 <= k < i implies (#[trigger] expansions[k]) is Ok by {
                    assert(d[k] == expansions[k]);
                }
            },
        }
    }
}

/// A server is started with what comes of expanding what is configured, each in its place: the
/// command, every argument, and every value of the environment under its own name. It is
/// started exactly where nothing of that fails.
pub proof fn servers_are_started_expanded(
    r: Result<StdioServer, String>,
    server: StdioServer,
    command: Result<Seq<char>, Seq<char>>,
    args: Seq<Result<Seq<char>, Seq<char>>>,
    env: Seq<Result<Seq<char>, Seq<char>>>,
)
    requires
        config::may_expand_to(server.command@, command),
        may_expand_all(text::texts(server.args@), args),
        may_expand_all(second_views(server.env@), env),
        started_as(r, server, command, args, env),
    ensures
        r is Ok <==> (command is Ok && (forall|i: int|
            0 <= i < args.len() ==> (#[trigger] args[i]) is Ok) && (forall|i: int|
            0 <= i < env.len() ==> (#[trigger] env[i]) is Ok)),
        r matches Ok(started) ==> {
            &&& command == Ok::<Seq<char>, Seq<char>>(started.command@)
            &&& started.args@.len() == server.args@.len()
            &&& forall|i: int|
                #![trigger started.args@[i]]
                0 <= i < server.args@.len() ==> args[i] == Ok::<Seq<char>, Seq<char>>(
                    started.args@[i]@,
                ) && config::may_expand_to(server.args@[i]@, Ok(started.args@[i]@))
            &&& started.env@.len() == server.env@.len()
            &&& forall|i: int|
                #![trigger started.env@[i]]
                0 <= i < server.env@.len() ==> started.env@[i].0@ == server.env@[i].0@ && env[i]
                    == Ok::<Seq<char>, Seq<char>>(started.env@[i].1@) && config::may_expand_to(
                    server.env@[i].1@,
                    Ok(started.env@[i].1@),
                )
        },
        r matches Err(error) ==> command == Err::<Seq<char>, Seq<char>>(error@) || args.contains(
            Err::<Seq<char>, Seq<char>>(error@),
        ) || env.contains(Err::<Seq<char>, Seq<char>>(error@)),
{
    lemma_all_expanded(args);
    lemma_all_expanded(env);
    if let Ok(started) = r {
        let values = all_expanded(env)->Ok_0;
        let pairs = pair_views(started.env@);
        assert(text::texts(started.args@).len() == args.len());
        assert(pairs.len() == server.env@.len());
        assert forall|i: int| #![trigger started.args@[i]] 0 <= i < server.args@.len() implies args[i]
            == Ok::<Seq<char>, Seq<char>>(started.args@[i]@) && config::may_expand_to(
            server.args@[i]@,
            Ok(started.args@[i]@),
        ) by {
            assert(text::texts(started.args@)[i] == started.args@[i]@);
            assert(config::may_expand_to(text::texts(server.args@)[i], args[i]));
        }
        assert forall|i: int| #![trigger started.env@[i]] 0 <= i < server.env@.len() implies started.env@[i].0@
            == server.env@[i].0@ && env[i] == Ok::<Seq<char>, Seq<char>>(started.env@[i].1@)
            && config::may_expand_to(server.env@[i].1@, Ok(started.env@[i].1@)) by {
            assert(pairs[i] == (server.env@[i].0@, values[i]));
            assert(config::may_expand_to(second_views(server.env@)[i], env[i]));
        }
    }
}

/// A server whose command, arguments and values hold neither dollar signs nor a home directory
/// at their start is started exactly as it is configured.
pub proof fn plain_servers_are_started_as_they_are(
    r: Result<StdioServer, String>,
    server: StdioServer,
    command: Result<Seq<char>, Seq<char>>,
    args: Seq<Result<Seq<char>, Seq<char>>>,
    env: Seq<Result<Seq<char>, Seq<char>>>,
)
    requires
        config::may_expand_to(server.command@, command),
        may_expand_all(text::texts(server.args@), args),
        may_expand_all(second_views(server.env@), env),
        started_as(r, server, command, args, env),
        is_plain(server.command@),
        forall|i: int| 0 <= i < server.args@.len() ==> is_plain((#[trigger] server.args@[i])@),
        forall|i: int| 0 <= i < server.env@.len() ==> is_plain((#[trigger] server.env@[i]).1@),
    ensures
        r matches Ok(started) && started.command@ == server.command@ && text::texts(started.args@)
            == text::texts(server.args@) && pair_views(started.env@) == pair_views(server.env@),
{
    servers_are_started_expanded(r, server, command, args, env);
    config::plain_texts_stay(server.command@, command);
    assert forall|i: int| 0 <= i < args.len() implies (#[trigger] args[i]) is Ok by {
        assert(config::may_expand_to(text::texts(server.args@)[i], args[i]));
        assert(is_plain(server.args@[i]@));
        config::plain_texts_stay(server.args@[i]@, args[i]);
    }
    assert forall|i: int| 0 <= i < env.len() implies (#[trigger] env[i]) is Ok by {
        assert(config::may_expand_to(second_views(server.env@)[i], env[i]));
        assert(is_plain(server.env@[i].1@));
        config::plain_texts_stay(server.env@[i].1@, env[i]);
    }
    let started = r->Ok_0;
    assert forall|i: int| 0 <= i < server.args@.len() implies text::texts(started.args@)[i] == text::texts(
        server.args@,
    )[i] by {
        assert(is_plain(server.args@[i]@));
        assert(started.args@[i]@ == text::texts(started.args@)[i]);
        config::plain_texts_stay(server.args@[i]@, Ok(started.args@[i]@));
    }
    assert forall|i: int| 0 <= i < server.env@.len() implies pair_views(started.env@)[i]
        == pair_views(server.env@)[i] by {
        assert(is_plain(server.env@[i].1@));
        assert(started.env@[i].0@ == server.env@[i].0@);
        config::plain_texts_stay(server.env@[i].1@, Ok(started.env@[i].1@));
    }
    assert(text::texts(started.args@) =~= text::texts(server.args@));
    assert(pair_views(started.env@) =~= pair_views(server.env@));
}

/// `text` holds no dollar signs, and no home directory at its start.
pub open spec fn is_plain(text: Seq<char>) -> bool {
    !text.contains('$') && !config::starts_at_home(text)
}

/// The headers of a server are its configured headers in their order, each with what comes of
/// expanding its value, where every name and every value can be sent; else there are none.
pub proof fn headers_carry_what_is_expanded(
    headers: Seq<(String, String)>,
    expansions: Seq<Result<Seq<char>, Seq<char>>>,
    n: nat,
)
    requires
        n <= headers.len(),
        may_expand_all(second_views(headers), expansions),
    ensures
        headers_from(headers, expansions, n) matches Ok(sent) ==> sent.len() == n && forall|i: int|
            #![trigger sent[i]]
            0 <= i < n ==> header_name_parsed(headers[i].0@) == Some(sent[i].0) && expansions[i]
                == Ok::<Seq<char>, Seq<char>>(sent[i].1) && is_header_value(sent[i].1)
                && config::may_expand_to(headers[i].1@, Ok(sent[i].1)),
        headers_from(headers, expansions, n) is Err ==> exists|i: int|
            #![trigger headers[i]]
            0 <= i < n && (header_name_parsed(headers[i].0@) is None || expansions[i] is Err
                || !is_header_value(expansions[i]->Ok_0)),
    decreases n,
{
    if n > 0 {
        headers_carry_what_is_expanded(headers, expansions, (n - 1) as nat);
        assert(config::may_expand_to(second_views(headers)[n - 1], expansions[n - 1]));
        match headers_from(headers, expansions, (n - 1) as nat) {
            Ok(earlier) => {
                if let Ok(sent) = headers_from(headers, expansions, n) {
                    assert forall|i: int| #![trigger sent[i]] 0 <= i < n implies header_name_parsed(
                        headers[i].0@,
                    ) == Some(sent[i].0) && expansions[i] == Ok::<Seq<char>, Seq<char>>(sent[i].1)
                        && is_header_value(sent[i].1) && config::may_expand_to(
                        headers[i].1@,
                        Ok(sent[i].1),
                    ) by {
                        if i < n - 1 {
                            assert(sent[i] == earlier[i]);
                        }
                    }
                } else {
                    assert(headers[n - 1] == headers[n - 1]);
                }
            },
            Err(_) => {
                let i = choose|i: int|
                    #![trigger headers[i]]
                    0 <= i < n - 1 && (header_name_parsed(headers[i].0@) is None
                        || expansions[i] is Err || !is_header_value(expansions[i]->Ok_0));
                assert(headers[i] == headers[i]);
            },
        }
    }
}

/// A server is reached by HTTP only where its address and its headers expand, and only at an
/// address that is secure or local and holds no credentials.
pub proof fn servers_are_reached_safely(
    url: Result<Seq<char>, Seq<char>>,
    headers: Result<Seq<(Seq<char>, Seq<char>)>, Seq<char>>,
)
    ensures
        http_fault(url, headers) is None ==> {
            &&& url is Ok
            &&& headers is Ok
            &&& url_parsed(url->Ok_0) matches Ok(parts) && (parts.scheme == "https"@
                || parts.scheme == "http"@ && is_local(parts.host)) && parts.username.len() == 0
                && !parts.password
        },
        url is Ok && headers is Ok && (url_parsed(url->Ok_0) matches Ok(parts) && (parts.scheme
            == "https"@ || parts.scheme == "http"@ && is_local(parts.host))
            && parts.username.len() == 0 && !parts.password) ==> http_fault(url, headers) is None,
{
}

/// Local is `localhost`, the block of IPv4 addresses from 127.0.0.0 to 127.255.255.255, and the
/// IPv6 address 1, and nothing else.
pub proof fn local_is_this_machine(domain: Seq<char>, v4: u32, v6: u128)
    ensures
        is_local(HostPart::Domain(domain)) <==> domain == "localhost"@,
        is_local(HostPart::Ipv4(v4)) <==> 0x7f00_0000 <= v4 <= 0x7fff_ffff,
        is_local(HostPart::Ipv6(v6)) <==> v6 == 1,
        !is_local(HostPart::Missing),
{
}

/// An address that cannot be read is refused with why; one with credentials for them, whatever
/// else it is.
pub proof fn refused_addresses_say_why(url: UrlModel, reason: Seq<char>)
    ensures
        url_fault(Err(reason)) matches Some(fault) && text::holds_in_order(fault.text(), seq![reason]),
        url.username.len() > 0 || url.password ==> url_fault(Ok(url)) == Some(
            UrlFault::Credentials,
        ),
        url.username.len() == 0 && !url.password && url.scheme != "https"@ && (url.scheme
            != "http"@ || !is_local(url.host)) ==> url_fault(Ok(url)) == Some(UrlFault::Insecure),
{
    text::lemma_holds_itself(reason);
    text::lemma_holds_behind("invalid MCP URL: "@, reason, seq![reason]);
}

} // verus!
