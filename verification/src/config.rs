use crate::text::{chars_of, decimal, decimal_chars, is_digit, lemma_decimal_reads_back, read_decimal, placeholder, placeholder_chars, replace_all, replace_chars, string_of};
use regex::Regex;
use vstd::prelude::*;

verus! {

#[verifier::external_type_specification]
#[verifier::external_body]
pub struct ExRegexError(regex::Error);

/// Whether `Regex::new` accepts a pattern: it refuses invalid syntax and
/// patterns whose compiled form exceeds the default size limit.
pub uninterp spec fn regex_accepts(pattern: Seq<char>) -> bool;

/// The error `Regex::new` gives for a pattern it refuses.
pub uninterp spec fn regex_error(pattern: Seq<char>) -> regex::Error;

/// A character that stands for itself in a pattern, or `.` for any
/// character but a newline.
pub open spec fn plain_atom(c: char) -> bool {
    ||| ('0' <= c <= '9')
    ||| ('a' <= c <= 'z')
    ||| ('A' <= c <= 'Z')
    ||| c == '.'
    ||| c == '/'
    ||| c == '_'
}

/// A short pattern made of plain atoms, each optionally repeated with `*`.
pub open spec fn plain_body(p: Seq<char>) -> bool {
    &&& p.len() <= 64
    &&& forall|i: int|
        0 <= i < p.len() ==> plain_atom(#[trigger] p[i]) || (p[i] == '*' && i > 0 && plain_atom(
            p[i - 1],
        ))
}

/// A plain body, optionally anchored with `^` at the start and `$` at the
/// end: a pattern that the regex syntax always accepts, small enough for
/// the default size limit.
pub open spec fn plain_pattern(p: Seq<char>) -> bool {
    ||| plain_body(p)
    ||| (p.len() > 0 && p[0] == '^' && plain_body(p.skip(1)))
    ||| (p.len() > 0 && p.last() == '$' && plain_body(p.drop_last()))
    ||| (p.len() > 1 && p[0] == '^' && p.last() == '$' && plain_body(p.skip(1).drop_last()))
}

/// `Regex::new`, keeping only whether it compiled and, if not, its error.
/// Patterns of literal characters, `.`, `*`, `^` and `$` that are short
/// compile.
#[verifier::external_body]
fn compile_regex(pattern: &str) -> (r: Result<(), regex::Error>)
    ensures
        r is Ok <==> regex_accepts(pattern@),
        plain_pattern(pattern@) ==> r is Ok,
        r matches Err(e) ==> e == regex_error(pattern@),
{
    Regex::new(pattern).map(|_| ())
}

/// What `Regex::new(pattern)` followed by `captures(input)` yields: `None`
/// when the pattern does not match, else the text of every capture group in
/// order, group 0 being the whole match and `None` standing for a group that
/// took no part in the match.
pub uninterp spec fn regex_captures(pattern: Seq<char>, input: Seq<char>) -> Option<
    Seq<Option<Seq<char>>>,
>;

/// `text` stands in `input` at some position.
pub open spec fn occurs_in(text: Seq<char>, input: Seq<char>) -> bool {
    exists|start: int|
        0 <= start && start + text.len() <= input.len() && #[trigger] input.subrange(
            start,
            start + text.len(),
        ) == text
}

/// `Regex::new(pattern)` then `Regex::captures(input)`, with each capture
/// group taken as an owned string. A pattern that does not compile yields
/// `None`. On a match, group 0 is present and every group's text is a part
/// of the input; that the match is the leftmost one is left unstated.
#[verifier::external_body]
fn captures_of(pattern: &str, input: &str) -> (r: Option<Vec<Option<String>>>)
    ensures
        r.deep_view() == regex_captures(pattern@, input@),
        !regex_accepts(pattern@) ==> r is None,
        r.deep_view() matches Some(caps) ==> caps.len() >= 1 && caps[0] is Some && forall|i: int|
            0 <= i < caps.len() && (#[trigger] caps[i]) is Some ==> occurs_in(caps[i]->0, input@),
{
    match Regex::new(pattern) {
        Ok(re) => re.captures(input).map(
            |caps| caps.iter().map(|m| m.map(|m| m.as_str().to_string())).collect(),
        ),
        Err(_) => None,
    }
}

/// Where the TCP listener binds.
#[derive(Debug, Clone)]
pub struct ListenerConfig {
    pub host: String,
    pub port: u16,
}

/// Where a MongoDB store would be found.
#[derive(Debug, Clone)]
pub struct MongoConfig {
    pub uri: String,
    pub database: String,
}

/// Where the Redis server is found.
#[derive(Debug, Clone)]
pub struct RedisConfig {
    pub host: String,
    pub port: u16,
}

/// One routing rule: a tag that `pattern` matches is sent to `target`, in
/// which `{i}` stands for the text of capture group `i`.
#[derive(Debug, Clone)]
pub struct RouteEntry {
    pub pattern: String,
    pub target: String,
}

/// The routing rules, tried in order.
#[derive(Debug, Clone)]
pub struct RouteTable {
    pub enabled: bool,
    pub entries: Vec<RouteEntry>,
}

/// The whole configuration of the receiver.
#[derive(Debug, Clone)]
pub struct AppConfig {
    pub auth_key: String,
    pub listener: ListenerConfig,
    pub redis: Option<RedisConfig>,
    pub route_table: Option<RouteTable>,
}

/// A target template with the placeholders of the first `n` capture groups
/// filled in, group by group; a group that took no part leaves its
/// placeholder as it is.
pub open spec fn fill_template(target: Seq<char>, caps: Seq<Option<Seq<char>>>, n: nat) -> Seq<
    char,
>
    decreases n,
{
    if n == 0 {
        target
    } else {
        let earlier = fill_template(target, caps, (n - 1) as nat);
        match caps[n - 1] {
            Some(text) => replace_all(earlier, placeholder((n - 1) as nat), text),
            None => earlier,
        }
    }
}

/// Where a rule sends a tag: nowhere when its pattern does not match, else
/// its target with every capture group filled in.
pub open spec fn entry_target(pattern: Seq<char>, target: Seq<char>, input: Seq<char>) -> Option<
    Seq<char>,
> {
    match regex_captures(pattern, input) {
        Some(caps) => Some(fill_template(target, caps, caps.len())),
        None => None,
    }
}

/// Where the first rule that matches sends a tag.
pub open spec fn first_target(entries: Seq<RouteEntry>, input: Seq<char>) -> Option<Seq<char>>
    decreases entries.len(),
{
    if entries.len() == 0 {
        None
    } else {
        match entry_target(entries[0].pattern@, entries[0].target@, input) {
            Some(t) => Some(t),
            None => first_target(entries.skip(1), input),
        }
    }
}

/// Where a table sends a tag: by its first matching rule when it is enabled,
/// else to `default:` followed by the tag.
pub open spec fn table_target(enabled: bool, entries: Seq<RouteEntry>, input: Seq<char>) -> Option<
    Seq<char>,
> {
    if enabled {
        first_target(entries, input)
    } else {
        Some(seq!['d', 'e', 'f', 'a', 'u', 'l', 't', ':'] + input)
    }
}

/// The view of an optional string.
pub open spec fn opt_view(o: Option<String>) -> Option<Seq<char>> {
    match o {
        Some(s) => Some(s@),
        None => None,
    }
}

/// What becomes of a completed message.
#[derive(Debug, Clone, PartialEq, Eq)]
pub enum Delivery {
    /// Send it to this target.
    Deliver(String),
    /// The route table sends it nowhere: drop it.
    Unrouted,
    /// No route table is configured: drop it.
    NoRouteTable,
}

/// `redis://host:port`, the address of a Redis server.
pub open spec fn redis_url_of(host: Seq<char>, port: u16) -> Seq<char> {
    seq!['r', 'e', 'd', 'i', 's', ':', '/', '/'] + host + seq![':'] + decimal(port as nat)
}

/// The address of a Redis server is `redis://`, the host, a colon, and a
/// text of decimal digits that reads back as the port, for every port.
pub proof fn lemma_redis_url_reads_back(host: Seq<char>, port: u16)
    ensures
        exists|digits: Seq<char>| #![trigger read_decimal(digits)]
            redis_url_of(host, port) == seq!['r', 'e', 'd', 'i', 's', ':', '/', '/'] + host
                + seq![':'] + digits && digits.len() > 0 && (forall|i: int|
                0 <= i < digits.len() ==> is_digit(#[trigger] digits[i])) && read_decimal(digits)
                == port,
{
    lemma_decimal_reads_back(port as nat);
    let digits = decimal(port as nat);
    assert(read_decimal(digits) == port);
}

impl AppConfig {
    /// The address of the configured Redis server, if one is configured.
    pub fn redis_url(&self) -> (r: Option<String>)
        ensures
            match self.redis {
                None => r is None,
                Some(c) => r matches Some(u) && u@ == redis_url_of(c.host@, c.port) && exists|
                    digits: Seq<char>,
                | #![trigger read_decimal(digits)]
                    u@ == seq!['r', 'e', 'd', 'i', 's', ':', '/', '/'] + c.host@ + seq![':'] + digits
                        && digits.len() > 0 && (forall|i: int|
                        0 <= i < digits.len() ==> is_digit(#[trigger] digits[i]))
                        && read_decimal(digits) == c.port,
            },
    {
        match &self.redis {
            None => None,
            Some(c) => {
                let digits = decimal_chars(c.port as usize);
                let url = String::from_str("redis://").concat(c.host.as_str()).concat(":").concat(
                    string_of(digits.as_slice()).as_str(),
                );
                proof {
                    reveal_strlit("redis://");
                    reveal_strlit(":");
                    lemma_redis_url_reads_back(c.host@, c.port);
                }
                Some(url)
            },
        }
    }

    /// What the dispatcher does with a message tagged `tag`.
    pub fn delivery_for(&self, tag: &str) -> (d: Delivery)
        ensures
            match self.route_table {
                None => d is NoRouteTable,
                Some(table) => match table_target(table.enabled, table.entries@, tag@) {
                    Some(t) => d matches Delivery::Deliver(s) && s@ == t,
                    None => d is Unrouted,
                },
            },
    {
        match &self.route_table {
            None => Delivery::NoRouteTable,
            Some(table) => match table.find_target(tag) {
                Some(target) => Delivery::Deliver(target),
                None => Delivery::Unrouted,
            },
        }
    }
}

impl RouteEntry {
    /// A rule for `pattern`, refused with the regex error when the pattern
    /// does not compile.
    pub fn new(pattern: &str, target: &str) -> (r: Result<Self, regex::Error>)
        ensures
            r is Ok <==> regex_accepts(pattern@),
            plain_pattern(pattern@) ==> r is Ok,
            r matches Ok(e) ==> e.pattern@ == pattern@ && e.target@ == target@ && e.well_formed(),
            r matches Err(e) ==> e == regex_error(pattern@),
    {
        match compile_regex(pattern) {
            Ok(()) => Ok(RouteEntry { pattern: pattern.to_string(), target: target.to_string() }),
            Err(e) => Err(e),
        }
    }

    /// The rule's pattern compiles, as it does for every rule that `new`
    /// builds.
    pub open spec fn well_formed(&self) -> bool {
        regex_accepts(self.pattern@)
    }

    /// Where this rule sends `input`, if its pattern matches.
    pub fn get_target(&self, input: &str) -> (r: Option<String>)
        ensures
            opt_view(r) == entry_target(self.pattern@, self.target@, input@),
            r is Some ==> regex_accepts(self.pattern@),
            r is Some ==> (regex_captures(self.pattern@, input@) matches Some(caps) && caps.len()
                >= 1 && caps[0] is Some && forall|i: int|
                0 <= i < caps.len() && (#[trigger] caps[i]) is Some ==> occurs_in(
                    caps[i]->0,
                    input@,
                )),
    {
        match captures_of(self.pattern.as_str(), input) {
            None => None,
            Some(caps) => Some(fill_target(self.target.as_str(), &caps)),
        }
    }
}

/// The target template with each capture group's placeholder filled in,
/// group by group.
pub fn fill_target(target: &str, caps: &Vec<Option<String>>) -> (r: String)
    ensures
        r@ == fill_template(target@, caps.deep_view(), caps@.len()),
{
    let mut result: Vec<char> = chars_of(target);
    let mut i: usize = 0;
    while i < caps.len()
        invariant
            i <= caps@.len(),
            result@ == fill_template(target@, caps.deep_view(), i as nat),
        decreases caps@.len() - i,
    {
        match &caps[i] {
            Some(text) => {
                let key = placeholder_chars(i);
                let text_chars = chars_of(text.as_str());
                result = replace_chars(result.as_slice(), key.as_slice(), text_chars.as_slice());
            },
            None => {},
        }
        i = i + 1;
    }
    string_of(result.as_slice())
}

impl RouteTable {
    /// Where the table sends `input`: the target of the first rule that
    /// matches it when the table is enabled, else `default:` and the input.
    pub fn find_target(&self, input: &str) -> (r: Option<String>)
        ensures
            opt_view(r) == table_target(self.enabled, self.entries@, input@),
    {
        if self.enabled {
            let mut i: usize = 0;
            assert(self.entries@.skip(0) =~= self.entries@);
            while i < self.entries.len()
                invariant
                    self.enabled,
                    i <= self.entries@.len(),
                    first_target(self.entries@.skip(i as int), input@) == first_target(
                        self.entries@,
                        input@,
                    ),
                decreases self.entries@.len() - i,
            {
                let found = self.entries[i].get_target(input);
                assert(self.entries@.skip(i as int)[0] == self.entries@[i as int]);
                assert(self.entries@.skip(i as int).skip(1) =~= self.entries@.skip(i + 1));
                if found.is_some() {
                    return found;
                }
                i = i + 1;
            }
            return None;
        }
        let r = String::from_str("default:").concat(input);
        proof {
            reveal_strlit("default:");
        }
        Some(r)
    }
}

} // verus!
