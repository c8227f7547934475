//! The authorisation-code flow with a proof key: the code verifier and its
//! challenge, the address that the user is sent to, the code that comes back
//! in the redirected request, and the fields of the token request.

use base64::Engine;
use rand::Rng;
use sha2::Digest;
use vstd::prelude::*;
use vstd::string::StringSliceAdditionalSpecFns;

verus! {

broadcast use vstd::string::group_string_axioms;

/// Where the user grants access.
pub const AUTHORIZE_ENDPOINT: &'static str = "https://accounts.spotify.com/authorize";

/// Where an authorisation code is exchanged for a token.
pub const TOKEN_ENDPOINT: &'static str = "https://accounts.spotify.com/api/token";

/// Number of characters of a code verifier.
pub const VERIFIER_LENGTH: usize = 128;

/// What can go wrong before a request is sent.
#[derive(Clone, Copy, Debug, PartialEq, Eq, Structural)]
pub enum AuthError {
    /// The address of a request is no valid URL.
    InvalidUrl,
    /// The redirect address begins with neither `http://` nor `https://`.
    InvalidRedirectUri,
    /// The redirected request carries no authorisation code.
    MissingCode,
}

/// The error with which the `url` crate refuses a text.
#[verifier::external_type_specification]
#[verifier::external_body]
pub struct ExParseError(url::ParseError);

/// The SHA-256 digest of a sequence of bytes.
pub uninterp spec fn spec_sha256(data: Seq<u8>) -> Seq<u8>;

/// The base64 text of a sequence of bytes, in the URL-safe alphabet and
/// without padding.
pub uninterp spec fn spec_base64_url(data: Seq<u8>) -> Seq<char>;

/// The text of the URL that `url` makes of a base address and query
/// parameters appended to it, or none where the base is no absolute URL.
pub uninterp spec fn spec_url_with_params(base: Seq<char>, params: Seq<(Seq<char>, Seq<char>)>) -> Option<Seq<char>>;

/// The names and values in the query of a URL, decoded, in their order; or
/// none where the text is no absolute URL. Two calls of `url` stand behind
/// this one name, `Url::parse` and then `Url::query_pairs` on what it gave:
/// a parsed URL is no plain value, so the name is for the two together,
/// which is still a function of the text alone.
pub uninterp spec fn spec_query_pairs(url: Seq<char>) -> Option<Seq<(Seq<char>, Seq<char>)>>;

/// Most bytes that a base address and its query parameters may have
/// together, two more counted for every parameter.
pub const MAX_URL_INPUT: usize = 0x100_0000;

/// Number of bytes of a text.
pub open spec fn byte_len(text: Seq<char>) -> nat {
    vstd::utf8::encode_utf8(text).len()
}

/// Number of bytes of the names and values of query parameters, two more
/// counted for every parameter.
pub open spec fn params_size(params: Seq<(Seq<char>, Seq<char>)>) -> nat
    decreases params.len(),
{
    if params.len() == 0 {
        0
    } else {
        params_size(params.drop_last()) + byte_len(params.last().0) + byte_len(params.last().1) + 2
    }
}

/// Size of what a URL is made of: the bytes of the base address and of the
/// query parameters.
pub open spec fn url_input_size(base: Seq<char>, params: Seq<(Seq<char>, Seq<char>)>) -> nat {
    byte_len(base) + params_size(params)
}

/// Whether a character is white space: the characters that Unicode lists
/// with the White_Space mark.
pub open spec fn is_white_space(c: char) -> bool {
    let code = c as u32;
    ||| 0x09 <= code <= 0x0d
    ||| code == 0x20
    ||| code == 0x85
    ||| code == 0xa0
    ||| code == 0x1680
    ||| 0x2000 <= code <= 0x200a
    ||| code == 0x2028
    ||| code == 0x2029
    ||| code == 0x202f
    ||| code == 0x205f
    ||| code == 0x3000
}

/// The pairs of texts that a vector of pairs of strings holds.
pub open spec fn pairs_view(pairs: Seq<(String, String)>) -> Seq<(Seq<char>, Seq<char>)> {
    Seq::new(pairs.len(), |i: int| (pairs[i].0@, pairs[i].1@))
}

/// Calls `Sha256::digest` of the `sha2` crate. Trusted: the result is the
/// SHA-256 digest of the input and has 32 bytes.
#[verifier::external_body]
fn sha256(data: &[u8]) -> (digest: Vec<u8>)
    ensures
        digest@ == spec_sha256(data@),
        digest@.len() == 32,
{
    sha2::Sha256::digest(data).to_vec()
}

/// Calls `encode` of the `URL_SAFE_NO_PAD` engine of the `base64` crate.
/// Trusted: the result is the unpadded URL-safe base64 text of the input.
/// The engine panics where the length of the text would not fit a `usize`;
/// inputs that long are left out.
#[verifier::external_body]
fn base64_url(data: &[u8]) -> (text: String)
    requires
        data@.len() <= 0x4000_0000,
    ensures
        text@ == spec_base64_url(data@),
{
    base64::engine::general_purpose::URL_SAFE_NO_PAD.encode(data)
}

/// Calls `rand::rng().sample_iter(Alphanumeric)` of the `rand` crate and
/// takes `count` characters. Trusted: every outcome has `count` characters,
/// each an ASCII letter or digit. Which ones is not said: two calls differ.
/// The generator of the thread panics where the system gives it no seed; no
/// input decides that.
#[verifier::external_body]
fn random_alphanumeric(count: usize) -> (text: String)
    ensures
        text@.len() == count,
        forall|i: int| 0 <= i < text@.len() ==> is_ascii_alphanumeric(#[trigger] text@[i]),
{
    rand::rng().sample_iter(&rand::distr::Alphanumeric).take(count).map(char::from).collect()
}

/// Calls `Url::parse_with_params` of the `url` crate and hands out the text
/// of the URL. Trusted: the outcome is a function of the base and the
/// parameters alone. `url` keeps positions in the text of a URL in 32 bits
/// and panics, once the base is parsed, where a position does not fit, that
/// is where the text passes 4 GiB. Inputs of more than `MAX_URL_INPUT`
/// bytes are left out: below that the text would have to grow to 256 times
/// its input to get there, and escaping a byte makes three of it, a
/// parameter adds two separators.
#[verifier::external_body]
fn url_with_params(base: &str, params: &Vec<(String, String)>) -> (made: Result<String, url::ParseError>)
    requires
        url_input_size(base@, pairs_view(params@)) <= MAX_URL_INPUT,
    ensures
        made is Ok <==> spec_url_with_params(base@, pairs_view(params@)) is Some,
        made matches Ok(text) ==> spec_url_with_params(base@, pairs_view(params@)) == Some(text@),
{
    match url::Url::parse_with_params(base, params) {
        Ok(url) => Ok(String::from(url)),
        Err(error) => Err(error),
    }
}

/// Calls `Url::parse` of the `url` crate, then `Url::query_pairs` on the
/// URL it gave, and collects the pairs. Trusted: the outcome of the two
/// calls together is a function of the text alone.
#[verifier::external_body]
fn query_pairs(url: &str) -> (parsed: Result<Vec<(String, String)>, url::ParseError>)
    ensures
        parsed is Ok <==> spec_query_pairs(url@) is Some,
        parsed matches Ok(pairs) ==> spec_query_pairs(url@) == Some(pairs_view(pairs@)),
{
    match url::Url::parse(url) {
        Ok(url) => Ok(
            url.query_pairs().map(|(name, value)| (name.into_owned(), value.into_owned())).collect(),
        ),
        Err(error) => Err(error),
    }
}

/// Tells whether a character is white space.
pub fn is_whitespace(c: char) -> (white: bool)
    ensures
        white == is_white_space(c),
{
    let code = c as u32;
    (0x09 <= code && code <= 0x0d) || code == 0x20 || code == 0x85 || code == 0xa0 || code
        == 0x1680 || (0x2000 <= code && code <= 0x200a) || code == 0x2028 || code == 0x2029 || code
        == 0x202f || code == 0x205f || code == 0x3000
}

/// Whether a character is an ASCII letter or digit.
pub open spec fn is_ascii_alphanumeric(c: char) -> bool {
    let code = c as u32;
    (0x30 <= code <= 0x39) || (0x41 <= code <= 0x5a) || (0x61 <= code <= 0x7a)
}

/// Makes a fresh code verifier: `VERIFIER_LENGTH` random ASCII letters and
/// digits.
pub fn generate_code_verifier() -> (verifier: String)
    ensures
        verifier@.len() == VERIFIER_LENGTH,
        forall|i: int| 0 <= i < verifier@.len() ==> is_ascii_alphanumeric(#[trigger] verifier@[i]),
{
    random_alphanumeric(VERIFIER_LENGTH)
}

/// The challenge of a code verifier: the base64 text of the SHA-256 digest
/// of its bytes.
pub open spec fn spec_code_challenge(verifier_bytes: Seq<u8>) -> Seq<char> {
    spec_base64_url(spec_sha256(verifier_bytes))
}

/// Derives the challenge that is sent in place of the verifier.
pub fn code_challenge(verifier: &str) -> (challenge: String)
    ensures
        challenge@ == spec_code_challenge(verifier.spec_bytes()),
{
    let digest = sha256(verifier.as_bytes());
    base64_url(digest.as_slice())
}

/// The query parameters of the address that the user is sent to.
pub open spec fn spec_authorize_params(
    client_id: Seq<char>,
    redirect_uri: Seq<char>,
    challenge: Seq<char>,
) -> Seq<(Seq<char>, Seq<char>)> {
    seq![
        ("client_id"@, client_id),
        ("response_type"@, "code"@),
        ("redirect_uri"@, redirect_uri),
        ("code_challenge_method"@, "S256"@),
        ("code_challenge"@, challenge),
        ("scope"@, "user-library-read"@),
    ]
}

fn pair(name: &str, value: &str) -> (made: (String, String))
    ensures
        made.0@ == name@,
        made.1@ == value@,
{
    (String::from_str(name), String::from_str(value))
}

/// Lists the query parameters of the address that the user is sent to.
pub fn authorize_params(client_id: &str, redirect_uri: &str, challenge: &str) -> (params: Vec<(String, String)>)
    ensures
        pairs_view(params@) == spec_authorize_params(client_id@, redirect_uri@, challenge@),
{
    let mut params: Vec<(String, String)> = Vec::new();
    params.push(pair("client_id", client_id));
    params.push(pair("response_type", "code"));
    params.push(pair("redirect_uri", redirect_uri));
    params.push(pair("code_challenge_method", "S256"));
    params.push(pair("code_challenge", challenge));
    params.push(pair("scope", "user-library-read"));
    params
}

/// More parameters are no fewer bytes.
proof fn lemma_params_size_grows(params: Seq<(Seq<char>, Seq<char>)>, count: int)
    requires
        0 <= count <= params.len(),
    ensures
        params_size(params.take(count)) <= params_size(params),
    decreases params.len() - count,
{
    if count < params.len() {
        lemma_params_size_grows(params, count + 1);
        assert(params.take(count + 1).drop_last() =~= params.take(count));
    } else {
        assert(params.take(count) =~= params);
    }
}

/// Tells whether a base address and query parameters are short enough to
/// be made into a URL.
pub fn url_input_fits(base: &str, params: &Vec<(String, String)>) -> (fits: bool)
    ensures
        fits <==> url_input_size(base@, pairs_view(params@)) <= MAX_URL_INPUT,
{
    let ghost pairs = pairs_view(params@);
    let mut size: usize = base.as_bytes().len();
    if size > MAX_URL_INPUT {
        return false;
    }
    let mut at: usize = 0;
    while at < params.len()
        invariant
            at <= params.len(),
            pairs == pairs_view(params@),
            size == byte_len(base@) + params_size(pairs.take(at as int)),
            size <= MAX_URL_INPUT,
        decreases params.len() - at,
    {
        let name = params[at].0.as_str().as_bytes().len();
        let value = params[at].1.as_str().as_bytes().len();
        proof {
            assert(pairs.take(at + 1).drop_last() =~= pairs.take(at as int));
            lemma_params_size_grows(pairs, at + 1);
        }
        let room = MAX_URL_INPUT - size;
        if name > room || value > room - name || room - name - value < 2 {
            return false;
        }
        size = size + name + value + 2;
        at += 1;
    }
    assert(pairs.take(at as int) =~= pairs);
    true
}

/// Appends query parameters to a base address, which must be an absolute
/// URL; base and parameters may have `MAX_URL_INPUT` bytes together.
pub fn url_with_query(base: &str, params: &Vec<(String, String)>) -> (made: Result<String, AuthError>)
    ensures
        made is Ok <==> url_input_size(base@, pairs_view(params@)) <= MAX_URL_INPUT
            && spec_url_with_params(base@, pairs_view(params@)) is Some,
        made matches Ok(url) ==> spec_url_with_params(base@, pairs_view(params@)) == Some(url@),
        made matches Err(error) ==> error == AuthError::InvalidUrl,
{
    if !url_input_fits(base, params) {
        return Err(AuthError::InvalidUrl);
    }
    match url_with_params(base, params) {
        Ok(url) => Ok(url),
        Err(_) => Err(AuthError::InvalidUrl),
    }
}

/// Builds the address that the user is sent to: the authorisation endpoint
/// with the parameters of `spec_authorize_params` in its query.
pub fn authorize_url(client_id: &str, redirect_uri: &str, challenge: &str) -> (made: Result<String, AuthError>)
    ensures
        made is Ok <==> url_input_size(
            AUTHORIZE_ENDPOINT@,
            spec_authorize_params(client_id@, redirect_uri@, challenge@),
        ) <= MAX_URL_INPUT && spec_url_with_params(
            AUTHORIZE_ENDPOINT@,
            spec_authorize_params(client_id@, redirect_uri@, challenge@),
        ) is Some,
        made matches Ok(url) ==> spec_url_with_params(
            AUTHORIZE_ENDPOINT@,
            spec_authorize_params(client_id@, redirect_uri@, challenge@),
        ) == Some(url@),
        made matches Err(error) ==> error == AuthError::InvalidUrl,
{
    let params = authorize_params(client_id, redirect_uri, challenge);
    url_with_query(AUTHORIZE_ENDPOINT, &params)
}

/// The fields of the request that exchanges a code for a token.
pub open spec fn spec_token_form(
    code: Seq<char>,
    redirect_uri: Seq<char>,
    client_id: Seq<char>,
    verifier: Seq<char>,
) -> Seq<(Seq<char>, Seq<char>)> {
    seq![
        ("grant_type"@, "authorization_code"@),
        ("code"@, code),
        ("redirect_uri"@, redirect_uri),
        ("client_id"@, client_id),
        ("code_verifier"@, verifier),
    ]
}

/// Lists the fields of the request that exchanges a code for a token.
pub fn token_form(code: &str, redirect_uri: &str, client_id: &str, verifier: &str) -> (form: Vec<(String, String)>)
    ensures
        pairs_view(form@) == spec_token_form(code@, redirect_uri@, client_id@, verifier@),
{
    let mut form: Vec<(String, String)> = Vec::new();
    form.push(pair("grant_type", "authorization_code"));
    form.push(pair("code", code));
    form.push(pair("redirect_uri", redirect_uri));
    form.push(pair("client_id", client_id));
    form.push(pair("code_verifier", verifier));
    form
}

/// What is left of a text after a prefix, if it begins with it.
pub open spec fn spec_strip_prefix(text: Seq<char>, prefix: Seq<char>) -> Option<Seq<char>> {
    if prefix.len() <= text.len() && text.take(prefix.len() as int) == prefix {
        Some(text.skip(prefix.len() as int))
    } else {
        None
    }
}

/// Takes a prefix off a text.
pub fn strip_prefix(text: &str, prefix: &str) -> (rest: Option<String>)
    ensures
        rest is Some <==> spec_strip_prefix(text@, prefix@) is Some,
        rest matches Some(tail) ==> spec_strip_prefix(text@, prefix@) == Some(tail@),
{
    let text_len = text.unicode_len();
    let prefix_len = prefix.unicode_len();
    if prefix_len > text_len {
        return None;
    }
    let mut at: usize = 0;
    while at < prefix_len
        invariant
            at <= prefix_len <= text_len,
            text_len == text@.len(),
            prefix_len == prefix@.len(),
            forall|k: int| 0 <= k < at ==> text@[k] == prefix@[k],
        decreases prefix_len - at,
    {
        if text.get_char(at) != prefix.get_char(at) {
            return None;
        }
        at += 1;
    }
    assert(text@.take(prefix_len as int) =~= prefix@);
    let tail = text.substring_char(prefix_len, text_len);
    Some(String::from_str(tail))
}

/// The address to listen on for the redirect: the redirect address without
/// its `http://` or `https://`.
pub open spec fn spec_redirect_address(redirect_uri: Seq<char>) -> Option<Seq<char>> {
    match spec_strip_prefix(redirect_uri, "http://"@) {
        Some(rest) => Some(rest),
        None => spec_strip_prefix(redirect_uri, "https://"@),
    }
}

/// Finds the address to listen on for the redirect.
pub fn redirect_address(redirect_uri: &str) -> (address: Result<String, AuthError>)
    ensures
        address is Ok <==> spec_redirect_address(redirect_uri@) is Some,
        address matches Ok(rest) ==> spec_redirect_address(redirect_uri@) == Some(rest@),
        address matches Err(error) ==> error == AuthError::InvalidRedirectUri,
{
    match strip_prefix(redirect_uri, "http://") {
        Some(rest) => Ok(rest),
        None => match strip_prefix(redirect_uri, "https://") {
            Some(rest) => Ok(rest),
            None => Err(AuthError::InvalidRedirectUri),
        },
    }
}

/// Whether a word begins at a position: a character that is not white
/// space, at the start of the text or after white space.
pub open spec fn begins_word(text: Seq<char>, at: int) -> bool {
    &&& 0 <= at < text.len()
    &&& !is_white_space(text[at])
    &&& (at == 0 || is_white_space(text[at - 1]))
}

/// Number of words that begin before a position.
pub open spec fn words_before(text: Seq<char>, upto: int) -> nat
    decreases upto,
{
    if upto <= 0 {
        0
    } else {
        words_before(text, upto - 1) + if begins_word(text, upto - 1) {
            1nat
        } else {
            0nat
        }
    }
}

/// Where the word that holds position `from` ends: at the next white space,
/// or with the text.
pub open spec fn word_end(text: Seq<char>, from: int) -> int
    decreases text.len() - from,
{
    if from >= text.len() || is_white_space(text[from]) {
        from
    } else {
        word_end(text, from + 1)
    }
}

/// Whether word number `index`, counted from 0, begins at `at`.
pub open spec fn is_word_start(text: Seq<char>, index: nat, at: int) -> bool {
    begins_word(text, at) && words_before(text, at) == index
}

/// Word number `index` of a text, counted from 0, where words are what white
/// space separates; none where the text has no more than `index` words.
pub open spec fn spec_word(text: Seq<char>, index: nat) -> Option<Seq<char>> {
    if exists|at: int| is_word_start(text, index, at) {
        let at = choose|at: int| is_word_start(text, index, at);
        Some(text.subrange(at, word_end(text, at)))
    } else {
        None
    }
}

proof fn lemma_words_before_grows(text: Seq<char>, from: int, upto: int)
    requires
        from <= upto,
    ensures
        words_before(text, from) <= words_before(text, upto),
    decreases upto - from,
{
    if from < upto {
        lemma_words_before_grows(text, from, upto - 1);
    }
}

/// A word number has one start at most.
proof fn lemma_word_start_unique(text: Seq<char>, index: nat, first: int, second: int)
    requires
        is_word_start(text, index, first),
        is_word_start(text, index, second),
    ensures
        first == second,
{
    if first < second {
        lemma_words_before_grows(text, first + 1, second);
    } else if second < first {
        lemma_words_before_grows(text, second + 1, first);
    }
}

/// A word ends at the first white space after its start.
proof fn lemma_word_end_is(text: Seq<char>, from: int, end: int)
    requires
        0 <= from <= end <= text.len(),
        forall|k: int| from <= k < end ==> !is_white_space(text[k]),
        end == text.len() || is_white_space(text[end]),
    ensures
        word_end(text, from) == end,
    decreases end - from,
{
    if from < end {
        lemma_word_end_is(text, from + 1, end);
    }
}

/// Finds word number `index` of a text.
pub fn word(text: &str, index: usize) -> (found: Option<String>)
    ensures
        found is Some <==> spec_word(text@, index as nat) is Some,
        found matches Some(taken) ==> spec_word(text@, index as nat) == Some(taken@),
{
    let total = text.unicode_len();
    let mut words: usize = 0;
    let mut after_space = true;
    let mut start: Option<usize> = None;
    let mut end: Option<usize> = None;
    let mut seen: usize = 0;
    for c in it: text.chars()
        invariant
            it.seq() == text@,
            total == text@.len(),
            seen == it.index(),
            words == words_before(text@, seen as int),
            words <= seen,
            after_space <==> (seen == 0 || is_white_space(text@[seen - 1])),
            start is None ==> end is None,
            start is None ==> forall|at: int| 0 <= at < seen ==> !is_word_start(text@, index as nat, at),
            start matches Some(begun) ==> begun < seen && is_word_start(text@, index as nat, begun as int),
            (start is Some && end is None) ==> forall|k: int|
                start->0 <= k < seen ==> !is_white_space(text@[k]),
            (start is Some && end is Some) ==> start->0 <= end->0 < seen && word_end(
                text@,
                start->0 as int,
            ) == end->0,
    {
        let white = is_whitespace(c);
        if !white && after_space {
            if words == index && start.is_none() {
                start = Some(seen);
            }
            words = words + 1;
        }
        if white {
            match (start, end) {
                (Some(begun), None) => {
                    proof {
                        lemma_word_end_is(text@, begun as int, seen as int);
                    }
                    end = Some(seen);
                },
                _ => {},
            }
        }
        proof {
            if start is None {
                assert forall|at: int| 0 <= at < seen + 1 implies !is_word_start(
                    text@,
                    index as nat,
                    at,
                ) by {
                    if at == seen && begins_word(text@, at) {
                        lemma_words_before_grows(text@, 0, seen as int);
                    }
                }
            }
        }
        after_space = white;
        seen = seen + 1;
    }
    match start {
        None => {
            assert forall|at: int| !is_word_start(text@, index as nat, at) by {}
            None
        },
        Some(begun) => {
            let ended = match end {
                Some(ended) => ended,
                None => {
                    proof {
                        lemma_word_end_is(text@, begun as int, total as int);
                    }
                    total
                },
            };
            proof {
                let chosen = choose|at: int| is_word_start(text@, index as nat, at);
                lemma_word_start_unique(text@, index as nat, begun as int, chosen);
            }
            let taken = text.substring_char(begun, ended);
            Some(String::from_str(taken))
        },
    }
}

/// The target of a request: the second word of its first line, after the
/// method.
pub open spec fn spec_request_target(request: Seq<char>) -> Option<Seq<char>> {
    spec_word(request, 1)
}

/// Finds the target of a request.
pub fn request_target(request: &str) -> (target: Option<String>)
    ensures
        target is Some <==> spec_request_target(request@) is Some,
        target matches Some(taken) ==> spec_request_target(request@) == Some(taken@),
{
    word(request, 1)
}

/// The value of the first pair from position `from` on that has the given
/// name.
pub open spec fn first_value_from(pairs: Seq<(Seq<char>, Seq<char>)>, name: Seq<char>, from: int) -> Option<Seq<char>>
    decreases pairs.len() - from,
{
    if from < 0 || from >= pairs.len() {
        None
    } else if pairs[from].0 == name {
        Some(pairs[from].1)
    } else {
        first_value_from(pairs, name, from + 1)
    }
}

/// The value of the first pair with the given name.
pub open spec fn spec_first_value(pairs: Seq<(Seq<char>, Seq<char>)>, name: Seq<char>) -> Option<Seq<char>> {
    first_value_from(pairs, name, 0)
}

/// Picks the value of the first pair with a given name.
pub fn first_value(pairs: &Vec<(String, String)>, name: &str) -> (value: Option<String>)
    ensures
        value is Some <==> spec_first_value(pairs_view(pairs@), name@) is Some,
        value matches Some(text) ==> spec_first_value(pairs_view(pairs@), name@) == Some(text@),
{
    let wanted = String::from_str(name);
    let ghost view = pairs_view(pairs@);
    let mut at: usize = 0;
    while at < pairs.len()
        invariant
            at <= pairs.len(),
            wanted@ == name@,
            view == pairs_view(pairs@),
            spec_first_value(view, name@) == first_value_from(view, name@, at as int),
        decreases pairs.len() - at,
    {
        if pairs[at].0 == wanted {
            return Some(pairs[at].1.clone());
        }
        at += 1;
    }
    None
}

/// The authorisation code among the pairs in the query of a redirected
/// request: the value of the first pair named `code`.
pub open spec fn spec_code_from_pairs(parsed: Option<Seq<(Seq<char>, Seq<char>)>>) -> Option<Seq<char>> {
    match parsed {
        Some(pairs) => spec_first_value(pairs, "code"@),
        None => None,
    }
}

/// Picks the authorisation code from the query of a redirected request, as
/// far as the query could be read.
pub fn code_from_pairs(parsed: Result<Vec<(String, String)>, url::ParseError>) -> (code: Result<String, AuthError>)
    ensures
        code matches Err(error) ==> error == AuthError::MissingCode,
        parsed matches Ok(pairs) ==> {
            &&& code is Ok <==> spec_code_from_pairs(Some(pairs_view(pairs@))) is Some
            &&& code matches Ok(text) ==> spec_code_from_pairs(Some(pairs_view(pairs@))) == Some(text@)
        },
        parsed is Err ==> code is Err,
{
    match parsed {
        Ok(pairs) => match first_value(&pairs, "code") {
            Some(text) => Ok(text),
            None => Err(AuthError::MissingCode),
        },
        Err(_) => Err(AuthError::MissingCode),
    }
}

/// The address under which the target of a redirected request is read.
pub open spec fn spec_callback_url(target: Seq<char>) -> Seq<char> {
    "http://localhost"@ + target
}

/// The authorisation code of a redirected request: the value of `code` in
/// the query of the request's target.
pub open spec fn spec_authorization_code(request: Seq<char>) -> Option<Seq<char>> {
    match spec_request_target(request) {
        Some(target) => spec_code_from_pairs(spec_query_pairs(spec_callback_url(target))),
        None => None,
    }
}

/// Reads the authorisation code out of a redirected request.
pub fn authorization_code(request: &str) -> (code: Result<String, AuthError>)
    ensures
        code is Ok <==> spec_authorization_code(request@) is Some,
        code matches Ok(text) ==> spec_authorization_code(request@) == Some(text@),
        code matches Err(error) ==> error == AuthError::MissingCode,
{
    match request_target(request) {
        None => Err(AuthError::MissingCode),
        Some(target) => {
            let mut url = String::from_str("http://localhost");
            url.append(target.as_str());
            code_from_pairs(query_pairs(url.as_str()))
        },
    }
}

} // verus!
