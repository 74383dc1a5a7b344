//! The config check: a config must hold no credentials (private keys, trading
//! credentials, wallet seeds), and may name the alert threshold.
use vstd::prelude::*;

use crate::live::{join_texts, joined};
use crate::spread::DEFAULT_THRESHOLD_MILLIONTHS;
use crate::text::{chars_of, same_text};

verus! {

#[verifier::external_type_specification]
#[verifier::external_body]
pub struct ExJsonValue(serde_json::Value);

/// What the config check reads of a parsed JSON config: objects with their
/// keys in the order the parsed object lists them, arrays, integers that fit
/// an `i64`, and every other value as `Other` (its content is never read).
#[derive(Debug, PartialEq, Eq)]
pub enum ConfigTree {
    Object(Vec<(String, ConfigTree)>),
    Array(Vec<ConfigTree>),
    Integer(i64),
    Other,
}

/// What `serde_json::from_str::<serde_json::Value>` gives for a config text,
/// read as a `ConfigTree`, or the text of the parse error.
pub uninterp spec fn parsed_config(raw: Seq<char>) -> Result<ConfigTree, Seq<char>>;

/// Calls `serde_json::from_str::<serde_json::Value>` and turns the value into
/// a `ConfigTree`, variant by variant (numbers by `as_i64`); the contract
/// claims that the result, tree and error text alike, is `parsed_config` of
/// the text.
#[verifier::external_body]
fn parse_config(raw: &str) -> (r: Result<ConfigTree, String>)
    ensures
        match r {
            Ok(t) => parsed_config(raw@) == Ok::<ConfigTree, Seq<char>>(t),
            Err(m) => parsed_config(raw@) == Err::<ConfigTree, Seq<char>>(m@),
        },
{
    match serde_json::from_str::<serde_json::Value>(raw) {
        Ok(v) => Ok(config_tree_of(v)),
        Err(e) => Err(e.to_string()),
    }
}

/// Turns a `serde_json::Value` into a `ConfigTree`, one variant into its
/// counterpart; it serves `parse_config`, whose contract covers it.
#[verifier::external_body]
fn config_tree_of(v: serde_json::Value) -> ConfigTree {
    match v {
        serde_json::Value::Object(m) => ConfigTree::Object(
            m.into_iter().map(|(k, c)| (k, config_tree_of(c))).collect(),
        ),
        serde_json::Value::Array(a) => ConfigTree::Array(a.into_iter().map(config_tree_of).collect()),
        serde_json::Value::Number(n) => match n.as_i64() {
            Some(i) => ConfigTree::Integer(i),
            None => ConfigTree::Other,
        },
        _ => ConfigTree::Other,
    }
}

// ---------------------------------------------------------------------------
// Credential names
// ---------------------------------------------------------------------------

/// A character with ASCII upper case turned to lower case.
pub open spec fn lower_char(c: char) -> char {
    if 65 <= (c as u32) <= 90 {
        ((c as u32) + 32) as char
    } else {
        c
    }
}

/// A text with ASCII upper case turned to lower case.
pub open spec fn lower_text(s: Seq<char>) -> Seq<char> {
    s.map_values(|c: char| lower_char(c))
}

/// `w` occurs in `s` as a run of consecutive characters.
pub open spec fn has_infix(s: Seq<char>, w: Seq<char>) -> bool {
    exists|i: int| 0 <= i && i + w.len() <= s.len() && #[trigger] s.subrange(i, i + w.len()) == w
}

/// A key names a credential: once ASCII-lowercased, it contains one of the
/// words for private keys, secrets, seeds and passwords.
pub open spec fn names_credential(k: Seq<char>) -> bool {
    let l = lower_text(k);
    ||| has_infix(l, "private_key"@)
    ||| has_infix(l, "privatekey"@)
    ||| has_infix(l, "secret"@)
    ||| has_infix(l, "seed"@)
    ||| has_infix(l, "mnemonic"@)
    ||| has_infix(l, "password"@)
    ||| has_infix(l, "passphrase"@)
}

fn lower_chars(cs: &Vec<char>) -> (r: Vec<char>)
    ensures
        r@ == lower_text(cs@),
{
    let mut r: Vec<char> = Vec::new();
    let mut i: usize = 0;
    while i < cs.len()
        invariant
            i <= cs@.len(),
            r@ == lower_text(cs@.take(i as int)),
        decreases cs@.len() - i,
    {
        let c = cs[i];
        let n = c as u32;
        let d = if 65 <= n && n <= 90 {
            ((n + 32) as u8) as char
        } else {
            c
        };
        assert(d == lower_char(c));
        r.push(d);
        assert(lower_text(cs@.take(i + 1)) =~= lower_text(cs@.take(i as int)).push(lower_char(c)));
        i = i + 1;
    }
    assert(cs@.take(cs@.len() as int) =~= cs@);
    r
}

fn matches_at(s: &Vec<char>, w: &Vec<char>, i: usize) -> (b: bool)
    requires
        i + w@.len() <= s@.len(),
    ensures
        b == (s@.subrange(i as int, i + w@.len()) == w@),
{
    let n = s.len();
    let mut k: usize = 0;
    while k < w.len()
        invariant
            n == s@.len(),
            i + w@.len() <= s@.len(),
            k <= w@.len(),
            forall|m: int| 0 <= m < k ==> s@[i + m] == w@[m],
        decreases w@.len() - k,
    {
        if s[i + k] != w[k] {
            assert(s@.subrange(i as int, i + w@.len())[k as int] != w@[k as int]);
            return false;
        }
        k = k + 1;
    }
    assert(s@.subrange(i as int, i + w@.len()) =~= w@);
    true
}

fn contains_text(s: &Vec<char>, w: &Vec<char>) -> (b: bool)
    ensures
        b == has_infix(s@, w@),
{
    if w.len() > s.len() {
        return false;
    }
    let last = s.len() - w.len();
    let mut i: usize = 0;
    while i < last
        invariant
            last == s@.len() - w@.len(),
            w@.len() <= s@.len(),
            i <= last,
            forall|j: int| 0 <= j < i ==> #[trigger] s@.subrange(j, j + w@.len()) != w@,
        decreases last - i,
    {
        if matches_at(s, w, i) {
            return true;
        }
        i = i + 1;
    }
    if matches_at(s, w, last) {
        return true;
    }
    proof {
        if has_infix(s@, w@) {
            let j = choose|j: int|
                0 <= j && j + w@.len() <= s@.len() && #[trigger] s@.subrange(j, j + w@.len()) == w@;
            assert(s@.subrange(j, j + w@.len()) == w@);
        }
    }
    false
}

fn mentions(lower: &Vec<char>, word: &str) -> (b: bool)
    ensures
        b == has_infix(lower@, word@),
{
    let w = chars_of(word);
    contains_text(lower, &w)
}

/// Whether a config key names a credential.
pub fn is_credential_name(k: &str) -> (b: bool)
    ensures
        b == names_credential(k@),
{
    let l = lower_chars(&chars_of(k));
    mentions(&l, "private_key") || mentions(&l, "privatekey") || mentions(&l, "secret") || mentions(
        &l,
        "seed",
    ) || mentions(&l, "mnemonic") || mentions(&l, "password") || mentions(&l, "passphrase")
}

// ---------------------------------------------------------------------------
// Forbidden fields
// ---------------------------------------------------------------------------

/// The keys that name credentials, at any depth, in the order of the tree:
/// an object's key comes before the keys inside its value.
pub open spec fn flagged_keys(t: ConfigTree) -> Seq<Seq<char>>
    decreases t, 0nat,
{
    match t {
        ConfigTree::Object(es) => flagged_in_entries(es@, es@.len()),
        ConfigTree::Array(items) => flagged_in_items(items@, items@.len()),
        _ => Seq::empty(),
    }
}

/// The flagged keys of the first `n` entries of an object.
pub open spec fn flagged_in_entries(es: Seq<(String, ConfigTree)>, n: nat) -> Seq<Seq<char>>
    decreases es, n,
{
    if n == 0 || n > es.len() {
        Seq::empty()
    } else {
        let e = es[n - 1];
        flagged_in_entries(es, (n - 1) as nat) + (if names_credential(e.0@) {
            seq![e.0@]
        } else {
            Seq::empty()
        }) + flagged_keys(e.1)
    }
}

/// The flagged keys of the first `n` items of an array.
pub open spec fn flagged_in_items(items: Seq<ConfigTree>, n: nat) -> Seq<Seq<char>>
    decreases items, n,
{
    if n == 0 || n > items.len() {
        Seq::empty()
    } else {
        flagged_in_items(items, (n - 1) as nat) + flagged_keys(items[n - 1])
    }
}

/// The texts of a vector of strings.
pub open spec fn texts(v: Seq<String>) -> Seq<Seq<char>> {
    v.map_values(|s: String| s@)
}

fn collect_flagged(t: &ConfigTree, out: &mut Vec<String>)
    ensures
        texts(final(out)@) == texts(old(out)@) + flagged_keys(*t),
    decreases t,
{
    let ghost start = texts(out@);
    match t {
        ConfigTree::Object(es) => {
            let mut i: usize = 0;
            assert(texts(out@) =~= start + flagged_in_entries(es@, 0));
            while i < es.len()
                invariant
                    i <= es@.len(),
                    *t == ConfigTree::Object(*es),
                    texts(out@) == start + flagged_in_entries(es@, i as nat),
                decreases es@.len() - i,
            {
                let ghost before = texts(out@);
                let k = &es[i].0;
                if is_credential_name(k.as_str()) {
                    out.push(k.clone());
                    assert(texts(out@) =~= before.push(k@));
                }
                let ghost mid = texts(out@);
                proof {
                    assert(decreases_to!(*t => (*t)->Object_0));
                    assert((*t)->Object_0 == *es);
                    assert(decreases_to!(*es => es@));
                    assert(decreases_to!(es@ => es@[i as int]));
                    assert(decreases_to!(es@[i as int] => es@[i as int].1));
                }
                collect_flagged(&es[i].1, out);
                assert(texts(out@) =~= start + flagged_in_entries(es@, (i + 1) as nat));
                i = i + 1;
            }
        },
        ConfigTree::Array(items) => {
            let mut i: usize = 0;
            assert(texts(out@) =~= start + flagged_in_items(items@, 0));
            while i < items.len()
                invariant
                    i <= items@.len(),
                    *t == ConfigTree::Array(*items),
                    texts(out@) == start + flagged_in_items(items@, i as nat),
                decreases items@.len() - i,
            {
                proof {
                    assert(decreases_to!(*t => (*t)->Array_0));
                    assert((*t)->Array_0 == *items);
                    assert(decreases_to!(*items => items@));
                    assert(decreases_to!(items@ => items@[i as int]));
                }
                collect_flagged(&items[i], out);
                assert(texts(out@) =~= start + flagged_in_items(items@, (i + 1) as nat));
                i = i + 1;
            }
        },
        _ => {
            assert(texts(out@) =~= start + flagged_keys(*t));
        },
    }
}

/// The keys of a config that name credentials, at any depth, in the order of
/// the tree. Only names are collected, never values.
pub fn forbidden_fields(t: &ConfigTree) -> (hits: Vec<String>)
    ensures
        texts(hits@) == flagged_keys(*t),
{
    let mut hits: Vec<String> = Vec::new();
    collect_flagged(t, &mut hits);
    assert(texts(Seq::<String>::empty()) =~= Seq::<Seq<char>>::empty());
    assert(Seq::<Seq<char>>::empty() + flagged_keys(*t) =~= flagged_keys(*t));
    hits
}

// ---------------------------------------------------------------------------
// The threshold
// ---------------------------------------------------------------------------

/// The value of the first entry named `threshold_millionths`, when it is an
/// integer; the default otherwise.
pub open spec fn threshold_in(es: Seq<(String, ConfigTree)>) -> i64
    decreases es.len(),
{
    if es.len() == 0 {
        DEFAULT_THRESHOLD_MILLIONTHS
    } else if es[0].0@ == "threshold_millionths"@ {
        match es[0].1 {
            ConfigTree::Integer(n) => n,
            _ => DEFAULT_THRESHOLD_MILLIONTHS,
        }
    } else {
        threshold_in(es.drop_first())
    }
}

/// The alert threshold that a config names at its top level, or the default.
pub open spec fn configured_threshold(t: ConfigTree) -> i64 {
    match t {
        ConfigTree::Object(es) => threshold_in(es@),
        _ => DEFAULT_THRESHOLD_MILLIONTHS,
    }
}

/// The alert threshold that a config names at its top level
/// (`threshold_millionths`, an integer), or `DEFAULT_THRESHOLD_MILLIONTHS`.
pub fn config_threshold(t: &ConfigTree) -> (th: i64)
    ensures
        th == configured_threshold(*t),
{
    match t {
        ConfigTree::Object(es) => {
            let mut i: usize = 0;
            assert(es@.skip(0) =~= es@);
            while i < es.len()
                invariant
                    i <= es@.len(),
                    configured_threshold(*t) == threshold_in(es@),
                    threshold_in(es@) == threshold_in(es@.skip(i as int)),
                decreases es@.len() - i,
            {
                assert(es@.skip(i as int)[0] == es@[i as int]);
                assert(es@.skip(i as int).drop_first() =~= es@.skip(i + 1));
                let entry = &es[i];
                assert(*entry == es@[i as int]);
                if same_text(entry.0.as_str(), "threshold_millionths") {
                    let th = match &entry.1 {
                        ConfigTree::Integer(n) => *n,
                        _ => DEFAULT_THRESHOLD_MILLIONTHS,
                    };
                    assert(th == threshold_in(es@.skip(i as int)));
                    return th;
                }
                i = i + 1;
            }
            DEFAULT_THRESHOLD_MILLIONTHS
        },
        _ => DEFAULT_THRESHOLD_MILLIONTHS,
    }
}

// ---------------------------------------------------------------------------
// The check
// ---------------------------------------------------------------------------

/// Why a config was refused.
#[derive(Debug, PartialEq, Eq)]
pub enum ConfigError {
    /// The config is not JSON; the parser's message.
    Json(String),
    /// The config holds credentials; the names of those fields.
    Forbidden(Vec<String>),
}

/// The human-readable text of a config error.
pub open spec fn config_error_text(e: ConfigError) -> Seq<char> {
    match e {
        ConfigError::Json(m) => m@,
        ConfigError::Forbidden(names) => "doctor: forbidden secret field(s): "@ + joined(
            texts(names@),
            ", "@,
        ),
    }
}

impl ConfigError {
    /// The error's message; it names fields, never their values.
    pub fn message(&self) -> (m: String)
        ensures
            m@ == config_error_text(*self),
    {
        match self {
            ConfigError::Json(m) => m.clone(),
            ConfigError::Forbidden(names) => {
                let mut m = String::from_str("doctor: forbidden secret field(s): ");
                let list = join_texts(names, ", ");
                m.append(list.as_str());
                m
            },
        }
    }
}

/// Checks a config text: refused when it is not JSON or when any key, at any
/// depth, names a credential; otherwise the alert threshold it names, or the
/// default.
pub fn config_check(raw: &str) -> (r: Result<i64, ConfigError>)
    ensures
        match parsed_config(raw@) {
            Err(m) => r matches Err(ConfigError::Json(e)) && e@ == m,
            Ok(t) => if flagged_keys(t).len() > 0 {
                r matches Err(ConfigError::Forbidden(names)) && texts(names@) == flagged_keys(t)
            } else {
                r == Ok::<i64, ConfigError>(configured_threshold(t))
            },
        },
{
    match parse_config(raw) {
        Err(m) => Err(ConfigError::Json(m)),
        Ok(t) => {
            let hits = forbidden_fields(&t);
            if hits.len() > 0 {
                Err(ConfigError::Forbidden(hits))
            } else {
                Ok(config_threshold(&t))
            }
        },
    }
}

} // verus!
