//! The decisions of the configuration server: which answer a request gets,
//! the hash under which a configuration body is stored, and the version that
//! a stored configuration gets.
use vstd::prelude::*;

use crate::keyval_runner::same_bytes;
use crate::keyval_simulator::{pair_views, value_for, value_of};

verus! {

/// The 64-bit xxHash of `data` with `seed`, as `xxhash_rust` computes it.
pub uninterp spec fn xxh64(data: Seq<u8>, seed: u64) -> u64;

/// `xxhash_rust::xxh64::xxh64`: the 64-bit xxHash of the bytes under the
/// seed, a function of the two alone.
#[verifier::external_body]
pub(crate) fn xxh64_hash(data: &[u8], seed: u64) -> (r: u64)
    ensures
        r == xxh64(data@, seed),
{
    xxhash_rust::xxh64::xxh64(data, seed)
}

/// The largest body that the server accepts, in bytes.
pub const MAX_BODY: u64 = 65536;

/// The method of a request.
#[derive(Clone, Copy, PartialEq, Eq, Structural, Debug)]
pub enum Method {
    Get,
    Post,
    Other,
}

/// The path `/ping`.
pub open spec fn ping_path() -> Seq<u8> {
    seq![47u8, 112u8, 105u8, 110u8, 103u8]
}

/// The path `/config`.
pub open spec fn config_path() -> Seq<u8> {
    seq![47u8, 99u8, 111u8, 110u8, 102u8, 105u8, 103u8]
}

/// The text `true`.
pub open spec fn true_text() -> Seq<u8> {
    seq![116u8, 114u8, 117u8, 101u8]
}

/// What the server does with a request.
#[derive(Debug)]
pub enum ConfigStep {
    /// Answer `pong`.
    Pong,
    /// The body may be larger than the server takes: answer 413.
    BodyTooBig,
    /// The query names no configuration: answer 400.
    MissingName,
    /// The body is no configuration: answer 400.
    InvalidConfig,
    /// Store the body as a new version of configuration `name`, unless
    /// `force` is off and the configuration holds that body already.
    Store { name: Vec<u8>, force: bool, body_hash: u64 },
    /// No such route: answer 404.
    NotFound,
}

impl ConfigStep {
    /// The HTTP status of the answer; a store is answered 201 once stored.
    pub open spec fn spec_status(&self) -> u16 {
        match self {
            ConfigStep::Pong => 200,
            ConfigStep::BodyTooBig => 413,
            ConfigStep::MissingName => 400,
            ConfigStep::InvalidConfig => 400,
            ConfigStep::Store { .. } => 201,
            ConfigStep::NotFound => 404,
        }
    }

    pub fn status(&self) -> (r: u16)
        ensures
            r == self.spec_status(),
    {
        match self {
            ConfigStep::Pong => 200,
            ConfigStep::BodyTooBig => 413,
            ConfigStep::MissingName => 400,
            ConfigStep::InvalidConfig => 400,
            ConfigStep::Store { .. } => 201,
            ConfigStep::NotFound => 404,
        }
    }
}

/// The step a request takes: `GET /ping` is answered `pong`; `POST /config`
/// is refused when its body may exceed `MAX_BODY` bytes, then when the query
/// names no configuration, then when its body is no configuration
/// (`body_parses` is the outcome of parsing it); otherwise its body is stored
/// under its xxHash (seed 0), forced when the query's `force` is `true`. Any
/// other request is not found.
pub fn config_request(
    method: Method,
    path: &[u8],
    size_upper: u64,
    name: Option<Vec<u8>>,
    force: Option<Vec<u8>>,
    body: &[u8],
    body_parses: bool,
) -> (r: ConfigStep)
    ensures
        method == Method::Get && path@ == ping_path() ==> r == ConfigStep::Pong,
        method == Method::Post && path@ == config_path() ==> {
            if size_upper > MAX_BODY {
                r == ConfigStep::BodyTooBig
            } else if name is None {
                r == ConfigStep::MissingName
            } else if !body_parses {
                r == ConfigStep::InvalidConfig
            } else {
                &&& r is Store
                &&& r->name@ == name->0@
                &&& r->force == (force is Some && force->0@ == true_text())
                &&& r->body_hash == xxh64(body@, 0)
            }
        },
        !(method == Method::Get && path@ == ping_path()) && !(method == Method::Post && path@
            == config_path()) ==> r == ConfigStep::NotFound,
{
    let ping: [u8; 5] = [47, 112, 105, 110, 103];
    let config: [u8; 7] = [47, 99, 111, 110, 102, 105, 103];
    let is_true: [u8; 4] = [116, 114, 117, 101];
    proof {
        assert(ping@ == ping_path());
        assert(config@ == config_path());
        assert(is_true@ == true_text());
    }
    match method {
        Method::Get => {
            if same_bytes(path, &ping) {
                return ConfigStep::Pong;
            }
        },
        Method::Post => {
            if same_bytes(path, &config) {
                if size_upper > MAX_BODY {
                    return ConfigStep::BodyTooBig;
                }
                let name = match name {
                    Some(n) => n,
                    None => {
                        return ConfigStep::MissingName;
                    },
                };
                if !body_parses {
                    return ConfigStep::InvalidConfig;
                }
                let force = match force {
                    Some(f) => same_bytes(&f, &is_true),
                    None => false,
                };
                let body_hash = xxh64_hash(body, 0);
                return ConfigStep::Store { name, force, body_hash };
            }
        },
        Method::Other => {},
    }
    ConfigStep::NotFound
}

/// The name-value pairs of a query in the `application/x-www-form-urlencoded`
/// syntax, decoded, in the order in which they come.
pub uninterp spec fn form_pairs(query: Seq<u8>) -> Seq<(Seq<u8>, Seq<u8>)>;

/// `form_urlencoded::parse` (through `url`), collected: the decoded pairs of
/// the query in order, each name and value as the bytes of its text. What
/// they are is a function of the query alone.
#[verifier::external_body]
fn parse_query(query: &[u8]) -> (r: Vec<(Vec<u8>, Vec<u8>)>)
    ensures
        pair_views(r@) == form_pairs(query@),
{
    url::form_urlencoded::parse(query).map(|(k, v)| (k.into_owned().into_bytes(), v.into_owned().into_bytes())).collect()
}

/// The value of parameter `key` among the query's pairs: that of the last
/// pair with the name, as when they are collected into a map.
pub fn query_param(pairs: &Vec<(Vec<u8>, Vec<u8>)>, key: &[u8]) -> (r: Option<Vec<u8>>)
    ensures
        match value_of(pair_views(pairs@), key@) {
            None => r is None,
            Some(v) => r matches Some(x) && x@ == v,
        },
{
    match value_for(pairs, key) {
        None => None,
        Some(v) => {
            let c = v.clone();
            proof {
                assert(c@ =~= v@);
            }
            Some(c)
        },
    }
}

/// The name `name`.
pub open spec fn name_text() -> Seq<u8> {
    seq![110u8, 97u8, 109u8, 101u8]
}

/// The name `force`.
pub open spec fn force_text() -> Seq<u8> {
    seq![102u8, 111u8, 114u8, 99u8, 101u8]
}

/// The step a request takes, with its raw query: the configuration's name is
/// the value of the query's last `name`, and it is forced where the last
/// `force` is `true`; otherwise as `config_request`.
pub fn config_request_raw(
    method: Method,
    path: &[u8],
    size_upper: u64,
    query: &[u8],
    body: &[u8],
    body_parses: bool,
) -> (r: ConfigStep)
    ensures
        method == Method::Get && path@ == ping_path() ==> r == ConfigStep::Pong,
        method == Method::Post && path@ == config_path() ==> {
            let name = value_of(form_pairs(query@), name_text());
            let force = value_of(form_pairs(query@), force_text());
            if size_upper > MAX_BODY {
                r == ConfigStep::BodyTooBig
            } else if name is None {
                r == ConfigStep::MissingName
            } else if !body_parses {
                r == ConfigStep::InvalidConfig
            } else {
                &&& r is Store
                &&& r->name@ == name->0
                &&& r->force == (force is Some && force->0 == true_text())
                &&& r->body_hash == xxh64(body@, 0)
            }
        },
        !(method == Method::Get && path@ == ping_path()) && !(method == Method::Post && path@
            == config_path()) ==> r == ConfigStep::NotFound,
{
    let name_key: [u8; 4] = [110, 97, 109, 101];
    let force_key: [u8; 5] = [102, 111, 114, 99, 101];
    proof {
        assert(name_key@ == name_text());
        assert(force_key@ == force_text());
    }
    let pairs = parse_query(query);
    let name = query_param(&pairs, &name_key);
    let force = query_param(&pairs, &force_key);
    config_request(method, path, size_upper, name, force, body, body_parses)
}

/// The version that a stored configuration gets: -1 where it is not forced
/// and the configuration holds the body already (`stored`), else one above
/// the largest version stored so far (0 where there is none).
pub fn config_version(force: bool, stored: bool, current_max: i64) -> (r: i64)
    requires
        current_max < i64::MAX,
    ensures
        r == (if !force && stored { -1 } else { current_max + 1 }),
{
    if !force && stored {
        -1
    } else {
        current_max + 1
    }
}

/// A lower-case hexadecimal digit.
pub open spec fn hex_digit(d: nat) -> u8 {
    if d < 10 {
        (48 + d) as u8
    } else {
        (87 + d) as u8
    }
}

/// The last `n` hexadecimal digits of `h`, most significant first.
pub open spec fn hex_digits(h: nat, n: nat) -> Seq<u8>
    decreases n,
{
    if n == 0 {
        Seq::empty()
    } else {
        hex_digits(h / 16, (n - 1) as nat).push(hex_digit(h % 16))
    }
}

fn hex_n(h: u64, n: usize) -> (r: Vec<u8>)
    ensures
        r@ == hex_digits(h as nat, n as nat),
    decreases n,
{
    if n == 0 {
        Vec::new()
    } else {
        let mut v = hex_n(h / 16, n - 1);
        let d = h % 16;
        let c: u8 = if d < 10 {
            48 + d as u8
        } else {
            87 + d as u8
        };
        v.push(c);
        v
    }
}

/// A hash as the server stores it: sixteen lower-case hexadecimal digits.
pub fn hash_text(h: u64) -> (r: Vec<u8>)
    ensures
        r@ == hex_digits(h as nat, 16),
        r@.len() == 16,
{
    let r = hex_n(h, 16);
    proof {
        lemma_hex_len(h as nat, 16);
    }
    r
}

/// `hex_digits` gives as many digits as asked for.
pub proof fn lemma_hex_len(h: nat, n: nat)
    ensures
        hex_digits(h, n).len() == n,
    decreases n,
{
    if n > 0 {
        lemma_hex_len(h / 16, (n - 1) as nat);
    }
}

} // verus!
