//! Client side of the KV service: connection settings, and the requests
//! and responses exchanged with a server over a Unix socket or HTTP.

use vstd::prelude::*;
use vstd::string::*;
use vstd::utf8::{encode_utf8, valid_utf8};
use crate::text::{chars_of, decimal, decimal_text, lossy_text, utf8_lossy};
use crate::error::join_text;

verus! {

/// The Unix socket that a client uses unless told otherwise.
pub open spec fn default_socket_path() -> Seq<char> {
    "/var/run/reynard/kv.sock"@
}

/// The default socket path, as a value.
pub fn default_socket_text() -> (s: String)
    ensures
        s@ == default_socket_path(),
{
    "/var/run/reynard/kv.sock".to_owned()
}

/// Whether `c` is an ASCII decimal digit.
pub open spec fn is_digit(c: char) -> bool {
    '0' <= c && c <= '9'
}

/// The value of a decimal digit.
pub open spec fn digit_value(c: char) -> int {
    c as int - '0' as int
}

/// The value of a sequence of decimal digits.
pub open spec fn digits_value(s: Seq<char>) -> int
    decreases s.len(),
{
    if s.len() == 0 {
        0
    } else {
        digits_value(s.drop_last()) * 10 + digit_value(s.last())
    }
}

/// The digits of a number written with an optional leading `+`.
pub open spec fn unsigned_digits(s: Seq<char>) -> Seq<char> {
    if s.len() > 0 && s[0] == '+' {
        s.drop_first()
    } else {
        s
    }
}

/// The `u8` that `s` spells in decimal (an optional `+`, then at least one
/// digit), if it fits: what `str::parse::<u8>` accepts.
pub open spec fn parsed_u8(s: Seq<char>) -> Option<u8> {
    let d = unsigned_digits(s);
    if d.len() > 0 && (forall|i: int| 0 <= i < d.len() ==> is_digit(#[trigger] d[i])) && digits_value(d) <= 255 {
        Some(digits_value(d) as u8)
    } else {
        None
    }
}

/// A prefix of digits is worth no more than the whole.
proof fn lemma_digits_prefix(d: Seq<char>, i: int)
    requires
        0 <= i <= d.len(),
        forall|j: int| 0 <= j < d.len() ==> is_digit(#[trigger] d[j]),
    ensures
        0 <= digits_value(d.take(i)) <= digits_value(d),
    decreases d.len() - i,
{
    if i < d.len() {
        lemma_digits_prefix(d, i + 1);
        assert(d.take(i + 1).drop_last() =~= d.take(i));
        assert(is_digit(d[i]));
    } else {
        assert(d.take(i) =~= d);
        lemma_digits_nonneg(d);
    }
}

/// Digits are worth at least zero.
proof fn lemma_digits_nonneg(d: Seq<char>)
    requires
        forall|j: int| 0 <= j < d.len() ==> is_digit(#[trigger] d[j]),
    ensures
        0 <= digits_value(d),
    decreases d.len(),
{
    if d.len() > 0 {
        assert(is_digit(d[d.len() - 1]));
        lemma_digits_nonneg(d.drop_last());
    }
}

/// Parses a database id as `str::parse::<u8>` does.
pub fn parse_database(text: &str) -> (r: Option<u8>)
    ensures
        r == parsed_u8(text@),
{
    let cs = chars_of(text);
    let start: usize = if cs.len() > 0 && cs[0] == '+' { 1 } else { 0 };
    let ghost d = unsigned_digits(text@);
    proof {
        assert(d =~= cs@.skip(start as int));
    }
    if start >= cs.len() {
        return None;
    }
    let mut value: u32 = 0;
    let mut i: usize = start;
    while i < cs.len()
        invariant
            start <= i <= cs@.len(),
            start < cs@.len(),
            d == cs@.skip(start as int),
            d == unsigned_digits(text@),
            forall|j: int| 0 <= j < i - start ==> is_digit(#[trigger] d[j]),
            value == digits_value(d.take(i - start)),
            value <= 255,
        decreases cs@.len() - i,
    {
        let c = cs[i];
        let ghost k = i - start;
        proof {
            assert(d[k] == c);
            assert(d.take(k + 1).drop_last() =~= d.take(k));
            assert(d.take(k + 1).last() == c);
        }
        if c < '0' || c > '9' {
            assert(!is_digit(d[k]));
            return None;
        }
        let digit: u32 = (c as u32) - ('0' as u32);
        let next: u32 = value * 10 + digit;
        if next > 255 {
            proof {
                assert(next == digits_value(d.take(k + 1)));
                if forall|j: int| 0 <= j < d.len() ==> is_digit(#[trigger] d[j]) {
                    lemma_digits_prefix(d, k + 1);
                }
            }
            return None;
        }
        value = next;
        i = i + 1;
    }
    proof {
        assert(d.take(d.len() as int) =~= d);
    }
    Some(value as u8)
}

/// `s` unless it is empty.
pub open spec fn non_empty(s: Option<Seq<char>>) -> Option<Seq<char>> {
    match s {
        Some(t) => if t.len() > 0 { Some(t) } else { None },
        None => None,
    }
}

/// The views of an optional text.
pub open spec fn opt_view(s: Option<String>) -> Option<Seq<char>> {
    match s {
        Some(t) => Some(t@),
        None => None,
    }
}

/// Client configuration.
#[derive(Debug)]
pub struct Config {
    /// Unix socket path (default: /var/run/reynard/kv.sock).
    pub socket_path: Option<String>,
    /// HTTP URL (e.g. http://localhost:8004).
    pub http_url: Option<String>,
    /// Database ID (0-15).
    pub database: u8,
}

/// A copy of an optional text.
fn copy_opt(s: &Option<String>) -> (r: Option<String>)
    ensures
        opt_view(r) == opt_view(*s),
{
    match s {
        Some(t) => Some(t.clone()),
        None => None,
    }
}

impl Clone for Config {
    fn clone(&self) -> (r: Self)
        ensures
            opt_view(r.socket_path) == opt_view(self.socket_path),
            opt_view(r.http_url) == opt_view(self.http_url),
            r.database == self.database,
    {
        Config { socket_path: copy_opt(&self.socket_path), http_url: copy_opt(&self.http_url), database: self.database }
    }
}

impl Default for Config {
    /// The default socket, no HTTP URL, database 0.
    fn default() -> (c: Self)
        ensures
            opt_view(c.socket_path) == Some(default_socket_path()),
            c.http_url is None,
            c.database == 0,
    {
        Config { socket_path: Some(default_socket_text()), http_url: None, database: 0 }
    }
}

/// `s` unless it is empty.
fn keep_non_empty(s: Option<String>) -> (r: Option<String>)
    ensures
        opt_view(r) == non_empty(opt_view(s)),
{
    match s {
        Some(t) => if !t.as_str().is_empty() {
            Some(t)
        } else {
            None
        },
        None => None,
    }
}

impl Config {
    /// The configuration that the environment describes, from the values
    /// of `KV_SOCKET_PATH`, `KV_HTTP_URL` and `KV_DATABASE` (`None` where a
    /// variable is unset): empty values count as unset, the socket path
    /// defaults to the default socket, and the database to 0 unless the
    /// value parses as a `u8`.
    pub fn from_env(socket_path: Option<String>, http_url: Option<String>, database: Option<String>) -> (c: Self)
        ensures
            opt_view(c.socket_path) == match non_empty(opt_view(socket_path)) {
                Some(p) => Some(p),
                None => Some(default_socket_path()),
            },
            opt_view(c.http_url) == non_empty(opt_view(http_url)),
            c.database == match database {
                Some(t) => match parsed_u8(t@) {
                    Some(n) => n,
                    None => 0,
                },
                None => 0,
            },
    {
        let socket_path = match keep_non_empty(socket_path) {
            Some(p) => Some(p),
            None => Some(default_socket_text()),
        };
        let http_url = keep_non_empty(http_url);
        let database = match &database {
            Some(t) => match parse_database(t.as_str()) {
                Some(n) => n,
                None => 0,
            },
            None => 0,
        };
        Config { socket_path, http_url, database }
    }

    /// Connects through the Unix socket at `path`, database 0.
    pub fn with_socket(path: &str) -> (c: Self)
        ensures
            opt_view(c.socket_path) == Some(path@),
            c.http_url is None,
            c.database == 0,
    {
        Config { socket_path: Some(path.to_owned()), http_url: None, database: 0 }
    }

    /// Connects through HTTP at `url`, database 0.
    pub fn with_http(url: String) -> (c: Self)
        ensures
            c.socket_path is None,
            opt_view(c.http_url) == Some(url@),
            c.database == 0,
    {
        Config { socket_path: None, http_url: Some(url), database: 0 }
    }

    /// The same configuration for database `database`.
    pub fn with_database(self, database: u8) -> (c: Self)
        ensures
            opt_view(c.socket_path) == opt_view(self.socket_path),
            opt_view(c.http_url) == opt_view(self.http_url),
            c.database == database,
    {
        let mut c = self;
        c.database = database;
        c
    }
}

/// Whether URL encoding leaves byte `b` as it is: ASCII letters and
/// digits, `-`, `.`, `_` and `~`.
pub open spec fn unreserved(b: u8) -> bool {
    (48 <= b <= 57) || (65 <= b <= 90) || (97 <= b <= 122) || b == 45 || b == 46 || b == 95 || b == 126
}

/// The upper-case hexadecimal digit of `d` (below 16).
pub open spec fn hex_digit(d: u8) -> char {
    if d < 10 {
        (48 + d) as char
    } else {
        (55 + d) as char
    }
}

/// Byte `b`, URL encoded.
pub open spec fn encoded_byte(b: u8) -> Seq<char> {
    if unreserved(b) {
        seq![b as char]
    } else {
        seq!['%', hex_digit(b / 16), hex_digit(b % 16)]
    }
}

/// `bytes`, URL encoded byte by byte.
pub open spec fn url_encoded(bytes: Seq<u8>) -> Seq<char>
    decreases bytes.len(),
{
    if bytes.len() == 0 {
        Seq::empty()
    } else {
        url_encoded(bytes.drop_last()) + encoded_byte(bytes.last())
    }
}

/// `urlencoding::encode`: the UTF-8 bytes of `text` with every byte but
/// ASCII letters, digits, `-`, `.`, `_` and `~` written as `%` and two
/// upper-case hexadecimal digits.
#[verifier::external_body]
fn url_encode(text: &str) -> (r: String)
    ensures
        r@ == url_encoded(text.spec_bytes()),
{
    urlencoding::encode(text).into_owned()
}

/// The path that reads `key` from database `db`.
pub open spec fn get_path_text(db: u8, key: Seq<char>) -> Seq<char> {
    "/get/"@ + decimal(db as nat) + "/"@ + url_encoded(encode_utf8(key))
}

/// `s` without the `/` characters at its end.
pub open spec fn trim_slashes(s: Seq<char>) -> Seq<char>
    decreases s.len(),
{
    if s.len() > 0 && s.last() == '/' {
        trim_slashes(s.drop_last())
    } else {
        s
    }
}

/// The URL of `path` on the server at `base`.
pub open spec fn endpoint_text(base: Seq<char>, path: Seq<char>) -> Seq<char> {
    trim_slashes(base) + path
}

/// The head of an HTTP/1.1 request for `path`, with a content length when
/// a body of `body_len` bytes follows.
pub open spec fn request_head_text(method: Seq<char>, path: Seq<char>, body_len: Option<nat>) -> Seq<char> {
    method + " "@ + path + " HTTP/1.1\r\n"@ + "Host: localhost\r\n"@ + "Content-Type: application/json\r\n"@
        + match body_len {
        Some(n) => "Content-Length: "@ + decimal(n) + "\r\n"@,
        None => Seq::empty(),
    } + "\r\n"@
}

/// Whether an empty line (CR LF CR LF) starts at `i` in `s`.
pub open spec fn blank_line_at(s: Seq<u8>, i: int) -> bool {
    0 <= i && i + 4 <= s.len() && s[i] == 13 && s[i + 1] == 10 && s[i + 2] == 13 && s[i + 3] == 10
}

/// The first position at or after `p` where an empty line starts in `s`,
/// or -1.
pub open spec fn blank_line_from(s: Seq<u8>, p: int) -> int
    decreases s.len() - p,
{
    if p < 0 || p + 4 > s.len() {
        -1
    } else if blank_line_at(s, p) {
        p
    } else {
        blank_line_from(s, p + 1)
    }
}

/// A position that `blank_line_from` finds starts an empty line.
proof fn lemma_blank_line_found(s: Seq<u8>, p: int)
    requires
        blank_line_from(s, p) >= 0,
    ensures
        blank_line_at(s, blank_line_from(s, p)),
    decreases s.len() - p,
{
    if p >= 0 && p + 4 <= s.len() && !blank_line_at(s, p) {
        lemma_blank_line_found(s, p + 1);
    }
}

/// Where the body of a response starts in its text `s`: after the first
/// empty line, or at 0 without one.
pub open spec fn body_offset(s: Seq<u8>) -> int {
    let i = blank_line_from(s, 0);
    if i >= 0 {
        i + 4
    } else {
        0
    }
}

/// How a client reaches the server.
pub enum Transport {
    /// Through the Unix socket at this path.
    Unix(String),
    /// Through HTTP at this base URL.
    Http(String),
}

/// KV client.
pub struct Client {
    config: Config,
}

impl Client {
    /// The configuration.
    pub closed spec fn spec_config(&self) -> Config {
        self.config
    }

    /// A client with the default configuration.
    pub fn new() -> (c: Self)
        ensures
            opt_view(c.spec_config().socket_path) == Some(default_socket_path()),
            c.spec_config().http_url is None,
            c.spec_config().database == 0,
    {
        Client { config: Config::default() }
    }

    /// A client with configuration `config`.
    pub fn with_config(config: Config) -> (c: Self)
        ensures
            c.spec_config() == config,
    {
        Client { config }
    }

    /// A client configured from the values of the environment variables
    /// (see `Config::from_env`).
    pub fn from_env(socket_path: Option<String>, http_url: Option<String>, database: Option<String>) -> (c: Self)
        ensures
            opt_view(c.spec_config().socket_path) == match non_empty(opt_view(socket_path)) {
                Some(p) => Some(p),
                None => Some(default_socket_path()),
            },
            opt_view(c.spec_config().http_url) == non_empty(opt_view(http_url)),
            c.spec_config().database == match database {
                Some(t) => match parsed_u8(t@) {
                    Some(n) => n,
                    None => 0,
                },
                None => 0,
            },
    {
        Client { config: Config::from_env(socket_path, http_url, database) }
    }

    /// The configuration.
    pub fn config(&self) -> (c: &Config)
        ensures
            *c == self.spec_config(),
    {
        &self.config
    }

    /// How to reach the server: the socket when one is configured, else
    /// HTTP when a URL is, else an error.
    pub fn transport(&self) -> (r: Result<Transport, String>)
        ensures
            match self.spec_config().socket_path {
                Some(p) => r matches Ok(Transport::Unix(q)) && q@ == p@,
                None => match self.spec_config().http_url {
                    Some(u) => r matches Ok(Transport::Http(v)) && v@ == u@,
                    None => r matches Err(m) && m@ == "No connection method configured"@,
                },
            },
    {
        match &self.config.socket_path {
            Some(p) => Ok(Transport::Unix(p.clone())),
            None => match &self.config.http_url {
                Some(u) => Ok(Transport::Http(u.clone())),
                None => Err("No connection method configured".to_owned()),
            },
        }
    }

    /// The path that reads `key` from the configured database.
    pub fn get_path(&self, key: &str) -> (p: String)
        ensures
            p@ == get_path_text(self.spec_config().database, key@),
    {
        let a = join_text("/get/", decimal_text(self.config.database as u64).as_str());
        let b = join_text(a.as_str(), "/");
        let encoded = url_encode(key);
        join_text(b.as_str(), encoded.as_str())
    }
}

impl Default for Client {
    fn default() -> (c: Self)
        ensures
            opt_view(c.spec_config().socket_path) == Some(default_socket_path()),
            c.spec_config().http_url is None,
            c.spec_config().database == 0,
    {
        Self::new()
    }
}

/// The URL of `path` on the server at `base` (its trailing slashes
/// dropped).
pub fn endpoint_url(base: &str, path: &str) -> (r: String)
    ensures
        r@ == endpoint_text(base@, path@),
{
    let mut n = base.unicode_len();
    assert(base@.take(n as int) =~= base@);
    while n > 0 && base.get_char(n - 1) == '/'
        invariant
            n <= base@.len(),
            trim_slashes(base@.take(n as int)) == trim_slashes(base@),
        decreases n,
    {
        proof {
            assert(base@.take(n as int).drop_last() =~= base@.take(n - 1));
        }
        n = n - 1;
    }
    proof {
        let t = base@.take(n as int);
        assert(trim_slashes(t) == t);
    }
    join_text(base.substring_char(0, n), path)
}

/// The head of an HTTP/1.1 request for `path` with `method`, with a
/// content length when a body of `body_len` bytes follows.
pub fn request_head(method: &str, path: &str, body_len: Option<usize>) -> (r: String)
    ensures
        r@ == request_head_text(method@, path@, match body_len {
            Some(n) => Some(n as nat),
            None => None,
        }),
{
    let a = join_text(method, " ");
    let b = join_text(a.as_str(), path);
    let c = join_text(b.as_str(), " HTTP/1.1\r\n");
    let d = join_text(c.as_str(), "Host: localhost\r\n");
    let e = join_text(d.as_str(), "Content-Type: application/json\r\n");
    let f = match body_len {
        Some(n) => {
            let g = join_text(e.as_str(), "Content-Length: ");
            let h = join_text(g.as_str(), decimal_text(n as u64).as_str());
            join_text(h.as_str(), "\r\n")
        },
        None => e,
    };
    join_text(f.as_str(), "\r\n")
}

/// The first empty line of `b`, a prefix of `a`, is the first of `a`.
proof fn lemma_blank_line_prefix(a: Seq<u8>, b: Seq<u8>, p: int)
    requires
        b.len() <= a.len(),
        a.take(b.len() as int) == b,
        0 <= p,
        blank_line_from(b, p) >= 0,
    ensures
        blank_line_from(a, p) == blank_line_from(b, p),
    decreases b.len() - p,
{
    if p + 4 <= b.len() {
        assert forall|j: int| p <= j < p + 4 implies a[j] == b[j] by {
            assert(a.take(b.len() as int)[j] == a[j]);
        }
        if !blank_line_at(b, p) {
            lemma_blank_line_prefix(a, b, p + 1);
        }
    }
}

/// The body of a raw HTTP response: the bytes after the first empty line
/// of its text read as UTF-8 with invalid sequences replaced (all of them
/// without an empty line). `None` where that position lies past the end of
/// the response, which only replaced sequences before the empty line can
/// cause. A response whose head, empty line included, is valid UTF-8
/// gives the bytes after its first empty line.
pub fn response_body(response: &[u8]) -> (r: Option<Vec<u8>>)
    ensures
        match r {
            Some(b) => body_offset(utf8_lossy(response@)) <= response@.len()
                && b@ == response@.skip(body_offset(utf8_lossy(response@))),
            None => body_offset(utf8_lossy(response@)) > response@.len(),
        },
        forall|k: int| 0 <= k <= response@.len() && #[trigger] valid_utf8(response@.take(k))
            && blank_line_from(response@.take(k), 0) >= 0 ==> (r matches Some(b)
            && b@ == response@.skip(blank_line_from(response@, 0) + 4)),
{
    let lossy = lossy_text(response);
    proof {
        assert forall|k: int| 0 <= k <= response@.len() && #[trigger] valid_utf8(response@.take(k))
            && blank_line_from(response@.take(k), 0) >= 0 implies body_offset(utf8_lossy(response@))
            == blank_line_from(response@, 0) + 4 && blank_line_from(response@, 0) + 4 <= response@.len() by {
            let pre = response@.take(k);
            lemma_blank_line_prefix(utf8_lossy(response@), pre, 0);
            lemma_blank_line_prefix(response@, pre, 0);
            let i = blank_line_from(pre, 0);
            assert(blank_line_from(pre, 0) == i);
            lemma_blank_line_found(pre, 0);
        }
    }
    let text = lossy.as_str().as_bytes();
    let text_len = text.len();
    let mut p: usize = 0;
    let mut found: Option<usize> = None;
    while found.is_none() && p < text.len() && text.len() - p >= 4
        invariant
            p <= text@.len(),
            found is None ==> blank_line_from(text@, 0) == blank_line_from(text@, p as int),
            found matches Some(i) ==> blank_line_from(text@, 0) == i && i == p && blank_line_at(text@, p as int),
        decreases text@.len() - p + if found is None { 1int } else { 0int },
    {
        if text[p] == 13 && text[p + 1] == 10 && text[p + 2] == 13 && text[p + 3] == 10 {
            found = Some(p);
        } else {
            p = p + 1;
        }
    }
    let start: usize = match found {
        Some(i) => {
            assert(blank_line_from(text@, 0) == i);
            assert(i + 4 <= text_len) by {
                assert(blank_line_at(text@, i as int));
            }
            i + 4
        },
        None => {
            assert(blank_line_from(text@, p as int) == -1);
            0
        },
    };
    if start > response.len() {
        return None;
    }
    let mut body: Vec<u8> = Vec::new();
    let mut i: usize = start;
    while i < response.len()
        invariant
            start <= i <= response@.len(),
            body@ == response@.subrange(start as int, i as int),
        decreases response@.len() - i,
    {
        body.push(response[i]);
        i = i + 1;
    }
    Some(body)
}

} // verus!
