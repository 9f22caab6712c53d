//! The page server: which answer a request path gets, and the texts that the
//! answers carry.

use vstd::prelude::*;
use crate::text::{chars_of, push_char, str_eq, to_lowercase, lowercased, string_from_utf8, split_on};
use crate::numbers::{i32_to_string, i32_decimal, sum_texts, sum_of_texts, int_sum, parse_i32_spec, parse_all, checked_sum};
use crate::query::{Pair, QueryMap, try_query_str_to_map, well_formed_query, query_pairs, pairs_to_map, segments_to_map, lemma_pairs_of_segments_map};
use crate::json::{is_json, json_parses, message_json, json_message};

verus! {

/// `s` ends with `suffix`.
pub open spec fn has_suffix(s: Seq<char>, suffix: Seq<char>) -> bool {
    suffix.len() <= s.len() && s.skip(s.len() - suffix.len()) == suffix
}

/// Every non-overlapping occurrence of `from` in `s`, taken from left to right,
/// replaced by `to`, as `str::replace` does. An empty pattern occurs before
/// each character and at the end.
pub open spec fn replace_all(s: Seq<char>, from: Seq<char>, to: Seq<char>) -> Seq<char>
    decreases s.len(),
{
    if from.len() == 0 {
        if s.len() == 0 {
            to
        } else {
            to + seq![s[0]] + replace_all(s.drop_first(), from, to)
        }
    } else if s.len() == 0 {
        seq![]
    } else if from.len() <= s.len() && s.take(from.len() as int) == from {
        to + replace_all(s.skip(from.len() as int), from, to)
    } else {
        seq![s[0]] + replace_all(s.drop_first(), from, to)
    }
}

/// Whether `pat` occurs in `chars` at position `i`.
fn matches_at(chars: &Vec<char>, i: usize, pat: &Vec<char>) -> (r: bool)
    requires
        i <= chars@.len(),
    ensures
        r == (i + pat@.len() <= chars@.len() && chars@.subrange(i as int, i + pat@.len()) == pat@),
{
    let n = chars.len();
    let m = pat.len();
    if m > n - i {
        return false;
    }
    let mut j: usize = 0;
    while j < m
        invariant
            n == chars@.len(),
            m == pat@.len(),
            i + m <= n,
            j <= m,
            forall|k: int| 0 <= k < j ==> chars@[i + k] == pat@[k],
        decreases m - j,
    {
        if chars[i + j] != pat[j] {
            assert(chars@.subrange(i as int, i + m)[j as int] != pat@[j as int]);
            return false;
        }
        j = j + 1;
    }
    assert(chars@.subrange(i as int, i + m) =~= pat@);
    true
}

/// Whether `s` ends with `suffix`.
pub fn ends_with(s: &str, suffix: &str) -> (r: bool)
    ensures
        r == has_suffix(s@, suffix@),
{
    let cs = chars_of(s);
    let ps = chars_of(suffix);
    if ps.len() > cs.len() {
        return false;
    }
    let r = matches_at(&cs, cs.len() - ps.len(), &ps);
    assert(cs@.subrange(cs@.len() - ps@.len(), cs@.len() as int) =~= s@.skip(s@.len() - suffix@.len()));
    r
}

/// `s` with the empty pattern replaced: `to` before each character and at
/// the end.
fn replace_empty(s: &str, to: &str) -> (r: String)
    ensures
        r@ == replace_all(s@, seq![], to@),
{
    let cs = chars_of(s);
    let n = cs.len();
    let mut r = String::new();
    let mut i: usize = 0;
    assert(s@.skip(0) =~= s@);
    while i < n
        invariant
            cs@ == s@,
            n == s@.len(),
            i <= n,
            r@ + replace_all(s@.skip(i as int), seq![], to@) == replace_all(s@, seq![], to@),
        decreases n - i,
    {
        let ghost rest = s@.skip(i as int);
        assert(rest.drop_first() =~= s@.skip(i + 1));
        assert(rest[0] == cs@[i as int]);
        let ghost before = r@;
        r.append(to);
        push_char(&mut r, cs[i]);
        assert(r@ + replace_all(s@.skip(i + 1), seq![], to@) =~= before + replace_all(rest, seq![], to@));
        i = i + 1;
    }
    assert(s@.skip(n as int) =~= Seq::<char>::empty());
    let ghost before = r@;
    r.append(to);
    assert(r@ =~= before + replace_all(s@.skip(n as int), seq![], to@));
    r
}

/// Replaces every non-overlapping occurrence of `from` in `s`, from left to
/// right, by `to`; an empty `from` puts `to` before each character and at the
/// end.
pub fn replace_str(s: &str, from: &str, to: &str) -> (r: String)
    ensures
        r@ == replace_all(s@, from@, to@),
{
    let cs = chars_of(s);
    let fs = chars_of(from);
    let n = cs.len();
    let m = fs.len();
    if m == 0 {
        assert(from@ =~= Seq::<char>::empty());
        return replace_empty(s, to);
    }
    let mut r = String::new();
    let mut i: usize = 0;
    assert(s@.skip(0) =~= s@);
    while i < n
        invariant
            cs@ == s@,
            fs@ == from@,
            n == s@.len(),
            m == from@.len(),
            m > 0,
            i <= n,
            r@ + replace_all(s@.skip(i as int), from@, to@) == replace_all(s@, from@, to@),
        decreases n - i,
    {
        let ghost rest = s@.skip(i as int);
        if matches_at(&cs, i, &fs) {
            assert(rest.take(m as int) =~= s@.subrange(i as int, i + m));
            assert(rest.skip(m as int) =~= s@.skip(i + m));
            let ghost before = r@;
            r.append(to);
            assert(r@ + replace_all(s@.skip(i + m), from@, to@) =~= before + replace_all(rest, from@, to@));
            i = i + m;
        } else {
            proof {
                if m <= rest.len() {
                    assert(rest.take(m as int) =~= s@.subrange(i as int, i + m));
                }
            }
            assert(rest.drop_first() =~= s@.skip(i + 1));
            assert(rest[0] == cs@[i as int]);
            let ghost before = r@;
            push_char(&mut r, cs[i]);
            assert(r@ + replace_all(s@.skip(i + 1), from@, to@) =~= before + replace_all(rest, from@, to@));
            i = i + 1;
        }
    }
    assert(s@.skip(n as int) =~= Seq::<char>::empty());
    assert(r@ + replace_all(s@.skip(n as int), from@, to@) =~= r@);
    r
}

/// The page for a total: the template with every `home` replaced by the total
/// written in decimal.
pub fn render_sum_page(template: &str, total: i32) -> (r: String)
    ensures
        r@ == replace_all(template@, "home"@, i32_decimal(total)),
{
    let digits = i32_to_string(total);
    replace_str(template, "home", digits.as_str())
}

/// The number of an ASCII hexadecimal digit (either case).
pub open spec fn hex_value(b: u8) -> Option<u8> {
    if 0x30 <= b <= 0x39 {
        Some((b - 0x30) as u8)
    } else if 0x41 <= b <= 0x46 {
        Some((b - 0x41 + 10) as u8)
    } else if 0x61 <= b <= 0x66 {
        Some((b - 0x61 + 10) as u8)
    } else {
        None
    }
}

/// Percent-decoding of bytes: each `%` followed by two hexadecimal digits
/// becomes the byte they write; every other byte, a lone `%` too, stays. A
/// `+` stays a `+`.
pub open spec fn percent_decode(b: Seq<u8>) -> Seq<u8>
    decreases b.len(),
{
    if b.len() == 0 {
        seq![]
    } else if b[0] == 0x25 && b.len() >= 3 && hex_value(b[1]) is Some && hex_value(b[2]) is Some {
        seq![(hex_value(b[1])->0 * 16 + hex_value(b[2])->0) as u8] + percent_decode(b.skip(3))
    } else {
        seq![b[0]] + percent_decode(b.drop_first())
    }
}

/// What `urlencoding::decode` gives for a text: its UTF-8 bytes
/// percent-decoded, read back as UTF-8; `None` where those bytes are no UTF-8.
pub open spec fn url_decoded(s: Seq<char>) -> Option<Seq<char>> {
    let bytes = percent_decode(vstd::utf8::encode_utf8(s));
    if vstd::utf8::valid_utf8(bytes) {
        Some(vstd::utf8::decode_utf8(bytes))
    } else {
        None
    }
}

/// `urlencoding::decode`: the source decodes `%XX` escapes of the text's
/// bytes (hexadecimal digits of either case; any other `%` kept as is, `+`
/// kept) and reads the bytes with `String::from_utf8`; a text without `%` is
/// handed back as it is, which is what decoding its bytes gives too.
#[verifier::external_body]
pub(crate) fn url_decode(s: &str) -> (r: Option<String>)
    ensures
        r is Some <==> url_decoded(s@) is Some,
        r matches Some(t) ==> url_decoded(s@) == Some(t@),
{
    match urlencoding::decode(s) {
        Ok(t) => Some(t.into_owned()),
        Err(_) => None,
    }
}

/// What `encoding_rs::GBK.decode` makes of the bytes: the text they encode in
/// GBK (or in UTF-8 or UTF-16 where they start with that encoding's byte order
/// mark), malformed sequences replaced by U+FFFD.
pub uninterp spec fn gbk_decoded(bytes: Seq<u8>) -> Seq<char>;

/// `encoding_rs::GBK.decode`: decodes with byte-order-mark sniffing and
/// replacement of malformed input, so it always gives a text. The decoding
/// tables are named, not written out.
#[verifier::external_body]
pub(crate) fn gbk_decode(bytes: &[u8]) -> (r: String)
    ensures
        r@ == gbk_decoded(bytes@),
{
    let (text, _, _) = encoding_rs::GBK.decode(bytes);
    text.into_owned()
}

/// The answer for the contents of a file: `{"message": text}` with the bytes
/// decoded as GBK.
pub fn file_message_json(bytes: &[u8]) -> (r: String)
    ensures
        r@ == json_message(gbk_decoded(bytes@)),
{
    let text = gbk_decode(bytes);
    message_json(text.as_str())
}

/// The answer to a posted body: the body itself, where it is UTF-8 holding a
/// JSON document; `None` where it is not (the server gives no answer then).
pub fn post_reply(body: Vec<u8>) -> (r: Option<String>)
    ensures
        r is Some <==> vstd::utf8::valid_utf8(body@) && json_parses(vstd::utf8::decode_utf8(body@)),
        r matches Some(s) ==> s@ == vstd::utf8::decode_utf8(body@),
{
    match string_from_utf8(body) {
        Some(s) => {
            if is_json(s.as_str()) {
                Some(s)
            } else {
                None
            }
        },
        None => None,
    }
}

/// What the server does with a request, as characters.
pub enum Plan {
    SendTest,
    SendFile(Seq<char>),
    SendSum(i32),
    EchoBody,
    FetchFeed,
    Browse(Seq<char>),
    Abort,
}

/// What the server does with a request.
#[derive(Debug, PartialEq, Eq)]
pub enum Action {
    /// Log the query's keys and values, and answer with `./test.html`.
    SendTest,
    /// Answer with the contents of the file at this path.
    SendFile(String),
    /// Answer with the home page, its `home` replaced by this total.
    SendSum(i32),
    /// Answer with the request body, which must be a JSON document.
    EchoBody,
    /// Fetch the article feed and answer with its text as JSON.
    FetchFeed,
    /// Answer with the entries of the directory at this path, or with the
    /// contents of the file there, or with the error.
    Browse(String),
    /// Give no answer: the request is malformed.
    Abort,
}

impl View for Action {
    type V = Plan;

    open spec fn view(&self) -> Plan {
        match self {
            Action::SendTest => Plan::SendTest,
            Action::SendFile(p) => Plan::SendFile(p@),
            Action::SendSum(t) => Plan::SendSum(*t),
            Action::EchoBody => Plan::EchoBody,
            Action::FetchFeed => Plan::FetchFeed,
            Action::Browse(p) => Plan::Browse(p@),
            Action::Abort => Plan::Abort,
        }
    }
}

/// The values of an association list, in order.
pub open spec fn pair_values(ps: Seq<Pair>) -> Seq<Seq<char>> {
    ps.map_values(|p: Pair| p.1)
}

/// What `/sum` answers: the total of the query's values (0 without a query).
pub open spec fn sum_plan(query: Option<Seq<char>>) -> Plan {
    match query {
        None => Plan::SendSum(0),
        Some(q) => if !well_formed_query(q) {
            Plan::Abort
        } else {
            match sum_of_texts(pair_values(query_pairs(q))) {
                Some(t) => Plan::SendSum(t),
                None => Plan::Abort,
            }
        },
    }
}

/// What `/filelist` answers: the entry at the decoded `path` of the query
/// (the empty path without a query).
pub open spec fn browse_plan(query: Option<Seq<char>>) -> Plan {
    match query {
        None => Plan::Browse(seq![]),
        Some(q) => {
            let m = pairs_to_map(query_pairs(q));
            if !well_formed_query(q) || !m.contains_key("path"@) {
                Plan::Abort
            } else {
                match url_decoded(m["path"@]) {
                    Some(d) => Plan::Browse(d),
                    None => Plan::Abort,
                }
            }
        },
    }
}

/// What the server does with a request whose path, in lowercase, is `p`.
pub open spec fn plan(p: Seq<char>, query: Option<Seq<char>>) -> Plan {
    if p == "/test"@ {
        if query matches Some(q) && !well_formed_query(q) {
            Plan::Abort
        } else {
            Plan::SendTest
        }
    } else if p == "/home"@ {
        Plan::SendFile("./home.html"@)
    } else if p == "/post"@ {
        Plan::EchoBody
    } else if p == "/sum"@ {
        sum_plan(query)
    } else if p == "/getjuejindata"@ {
        Plan::FetchFeed
    } else if p == "/filelist"@ {
        browse_plan(query)
    } else if has_suffix(p, ".js"@) || has_suffix(p, ".html"@) {
        Plan::SendFile("."@ + p)
    } else {
        Plan::SendFile("./404.html"@)
    }
}

/// The query's characters, if there is one.
pub open spec fn opt_view(query: Option<&str>) -> Option<Seq<char>> {
    match query {
        Some(q) => Some(q@),
        None => None,
    }
}

fn sum_action(query: Option<&str>) -> (r: Action)
    ensures
        r@ == sum_plan(opt_view(query)),
{
    match query {
        None => Action::SendSum(0),
        Some(q) => match try_query_str_to_map(q) {
            None => Action::Abort,
            Some(m) => {
                let values = m.values();
                assert(values@.map_values(|v: &str| v@) =~= pair_values(query_pairs(q@)));
                match sum_texts(&values) {
                    Some(t) => Action::SendSum(t),
                    None => Action::Abort,
                }
            },
        },
    }
}

fn browse_action(query: Option<&str>) -> (r: Action)
    ensures
        r@ == browse_plan(opt_view(query)),
{
    match query {
        None => Action::Browse(String::new()),
        Some(q) => match try_query_str_to_map(q) {
            None => Action::Abort,
            Some(m) => match m.get("path") {
                None => Action::Abort,
                Some(p) => match url_decode(p) {
                    Some(d) => Action::Browse(d),
                    None => Action::Abort,
                },
            },
        },
    }
}

/// Decides what to do with a request for `path` with the given query string.
/// The path is compared in lowercase.
pub fn route(path: &str, query: Option<&str>) -> (r: Action)
    ensures
        r@ == plan(lowercased(path@), opt_view(query)),
{
    let lower = to_lowercase(path);
    let p = lower.as_str();
    if str_eq(p, "/test") {
        match query {
            Some(q) => match try_query_str_to_map(q) {
                None => Action::Abort,
                Some(_) => Action::SendTest,
            },
            None => Action::SendTest,
        }
    } else if str_eq(p, "/home") {
        Action::SendFile(String::from_str("./home.html"))
    } else if str_eq(p, "/post") {
        Action::EchoBody
    } else if str_eq(p, "/sum") {
        sum_action(query)
    } else if str_eq(p, "/getjuejindata") {
        Action::FetchFeed
    } else if str_eq(p, "/filelist") {
        browse_action(query)
    } else if ends_with(p, ".js") || ends_with(p, ".html") {
        let mut file = String::from_str(".");
        file.append(p);
        Action::SendFile(file)
    } else {
        Action::SendFile(String::from_str("./404.html"))
    }
}

/// `from` occurs nowhere in `s`.
pub open spec fn occurs_nowhere(s: Seq<char>, from: Seq<char>) -> bool {
    forall|i: int| 0 <= i && i + from.len() <= s.len() ==> #[trigger] s.subrange(i, i + from.len()) != from
}

/// A text in which the pattern does not occur comes back unchanged.
pub proof fn lemma_replace_absent(s: Seq<char>, from: Seq<char>, to: Seq<char>)
    requires
        from.len() > 0,
        occurs_nowhere(s, from),
    ensures
        replace_all(s, from, to) == s,
    decreases s.len(),
{
    if s.len() > 0 {
        let rest = s.drop_first();
        if from.len() <= s.len() {
            let k: int = 0;
            assert(s.subrange(k, k + from.len()) != from);
            assert(s.take(from.len() as int) =~= s.subrange(k, k + from.len()));
        }
        assert forall|i: int| 0 <= i && i + from.len() <= rest.len() implies #[trigger] rest.subrange(
            i,
            i + from.len(),
        ) != from by {
            let j = i + 1;
            assert(s.subrange(j, j + from.len()) != from);
            assert(rest.subrange(i, i + from.len()) =~= s.subrange(j, j + from.len()));
        }
        lemma_replace_absent(rest, from, to);
        assert(seq![s[0]] + rest =~= s);
    }
}

/// Every path that ends with `.js` or `.html`, whatever else it holds, is
/// answered with the file of that path under the current directory.
pub proof fn law_static_file_route(p: Seq<char>, q: Option<Seq<char>>)
    requires
        (p.len() >= 3 && p.subrange(p.len() - 3, p.len() as int) == seq!['.', 'j', 's']) || (p.len()
            >= 5 && p.subrange(p.len() - 5, p.len() as int) == seq!['.', 'h', 't', 'm', 'l']),
    ensures
        plan(p, q) == Plan::SendFile(seq!['.'] + p),
{
    reveal_strlit("/test");
    reveal_strlit("/home");
    reveal_strlit("/post");
    reveal_strlit("/sum");
    reveal_strlit("/getjuejindata");
    reveal_strlit("/filelist");
    reveal_strlit(".js");
    reveal_strlit(".html");
    reveal_strlit(".");
    let last = p[p.len() - 1];
    assert(last == 's' || last == 'l') by {
        if p.len() >= 3 && p.subrange(p.len() - 3, p.len() as int) == seq!['.', 'j', 's'] {
            assert(p.subrange(p.len() - 3, p.len() as int)[2] == last);
        } else {
            assert(p.subrange(p.len() - 5, p.len() as int)[4] == last);
        }
    }
    assert(p != "/test"@ && p != "/home"@ && p != "/post"@ && p != "/sum"@ && p != "/getjuejindata"@
        && p != "/filelist"@) by {
        if p == "/test"@ || p == "/home"@ || p == "/post"@ || p == "/sum"@ || p == "/getjuejindata"@
            || p == "/filelist"@ {
            assert(last == p[p.len() - 1]);
        }
    }
    if p.len() >= 3 && p.subrange(p.len() - 3, p.len() as int) == seq!['.', 'j', 's'] {
        assert(p.skip(p.len() - 3) =~= p.subrange(p.len() - 3, p.len() as int));
        assert(".js"@ =~= seq!['.', 'j', 's']);
    } else {
        assert(p.skip(p.len() - 5) =~= p.subrange(p.len() - 5, p.len() as int));
        assert(".html"@ =~= seq!['.', 'h', 't', 'm', 'l']);
    }
    assert("."@ =~= seq!['.']);
}

/// The sum of the integers of a sequence never leaves `i32` on the way.
pub open spec fn running_sums_fit(ns: Seq<i32>) -> bool {
    forall|k: int| 0 <= k <= ns.len() ==> i32::MIN <= #[trigger] int_sum(ns.take(k)) <= i32::MAX
}

proof fn lemma_parse_all_some(vs: Seq<Seq<char>>, ns: Seq<i32>)
    requires
        ns.len() == vs.len(),
        forall|i: int| 0 <= i < vs.len() ==> parse_i32_spec(#[trigger] vs[i]) == Some(ns[i]),
    ensures
        parse_all(vs) == Some(ns),
    decreases vs.len(),
{
    if vs.len() > 0 {
        let n = vs.len() - 1;
        assert forall|i: int| 0 <= i < n implies parse_i32_spec(#[trigger] vs.drop_last()[i]) == Some(
            ns.drop_last()[i],
        ) by {
            assert(vs.drop_last()[i] == vs[i]);
        }
        lemma_parse_all_some(vs.drop_last(), ns.drop_last());
        assert(parse_i32_spec(vs[n]) == Some(ns[n]));
        assert(ns.drop_last().push(ns[n]) =~= ns);
    }
}

proof fn lemma_checked_sum_fits(ns: Seq<i32>)
    requires
        running_sums_fit(ns),
    ensures
        checked_sum(ns) == Some(int_sum(ns) as i32),
    decreases ns.len(),
{
    if ns.len() > 0 {
        let m = ns.drop_last();
        assert forall|k: int| 0 <= k <= m.len() implies i32::MIN <= #[trigger] int_sum(m.take(k)) <= i32::MAX by {
            assert(m.take(k) =~= ns.take(k));
        }
        lemma_checked_sum_fits(m);
        assert(ns.take(ns.len() as int) =~= ns);
        assert(int_sum(ns.take(ns.len() as int)) == int_sum(ns));
    }
}

/// Where the query is well formed and every value of it is a number, and no
/// running total leaves `i32`, `/sum` answers with the sum of all the values
/// of the query (one per key).
pub proof fn law_sum_adds_every_value(q: Seq<char>, ns: Seq<i32>)
    requires
        well_formed_query(q),
        ns.len() == query_pairs(q).len(),
        forall|i: int| 0 <= i < ns.len() ==> parse_i32_spec(#[trigger] query_pairs(q)[i].1) == Some(ns[i]),
        running_sums_fit(ns),
    ensures
        plan("/sum"@, Some(q)) == Plan::SendSum(int_sum(ns) as i32),
{
    let vs = pair_values(query_pairs(q));
    assert forall|i: int| 0 <= i < vs.len() implies parse_i32_spec(#[trigger] vs[i]) == Some(ns[i]) by {
        assert(vs[i] == query_pairs(q)[i].1);
    }
    lemma_parse_all_some(vs, ns);
    lemma_checked_sum_fits(ns);
    reveal_strlit("/test");
    reveal_strlit("/home");
    reveal_strlit("/post");
    reveal_strlit("/sum");
    reveal_strlit("/getjuejindata");
    reveal_strlit("/filelist");
    assert("/test"@.len() == 5 && "/home"@.len() == 5 && "/post"@.len() == 5 && "/sum"@.len() == 4
        && "/getjuejindata"@.len() == 14 && "/filelist"@.len() == 9);
    assert("/sum"@ != "/test"@ && "/sum"@ != "/home"@ && "/sum"@ != "/post"@);
}

/// Where the query is well formed and maps the key `path` to a value that
/// decodes, `/filelist` browses the decoded value, whatever other keys the
/// query holds. The map is the one built by inserting the query's pieces from
/// first to last.
pub proof fn law_browse_uses_path(q: Seq<char>, d: Seq<char>)
    requires
        well_formed_query(q),
        segments_to_map(split_on(q, '&')).contains_key("path"@),
        url_decoded(segments_to_map(split_on(q, '&'))["path"@]) == Some(d),
    ensures
        plan("/filelist"@, Some(q)) == Plan::Browse(d),
{
    lemma_pairs_of_segments_map(split_on(q, '&'));
    reveal_strlit("/test");
    reveal_strlit("/home");
    reveal_strlit("/post");
    reveal_strlit("/sum");
    reveal_strlit("/getjuejindata");
    reveal_strlit("/filelist");
    assert("/test"@.len() == 5 && "/home"@.len() == 5 && "/post"@.len() == 5 && "/sum"@.len() == 4
        && "/getjuejindata"@.len() == 14 && "/filelist"@.len() == 9);
    assert(browse_plan(Some(q)) == Plan::Browse(d));
}

/// An occurrence of `from` in `a + b` that begins in `a` and ends in `b`.
pub open spec fn straddles(a: Seq<char>, b: Seq<char>, from: Seq<char>) -> bool {
    exists|i: int|
        0 <= i < a.len() && a.len() < i + from.len() <= a.len() + b.len() && #[trigger] (a + b).subrange(
            i,
            i + from.len(),
        ) == from
}

/// Replacing in a text split in two, where no occurrence of the pattern
/// spans the cut, is replacing in each part: every occurrence is replaced
/// wherever it stands.
pub proof fn law_replace_concat(a: Seq<char>, b: Seq<char>, from: Seq<char>, to: Seq<char>)
    requires
        from.len() > 0,
        !straddles(a, b, from),
    ensures
        replace_all(a + b, from, to) == replace_all(a, from, to) + replace_all(b, from, to),
    decreases a.len(),
{
    let s = a + b;
    let m = from.len() as int;
    if a.len() == 0 {
        assert(s =~= b);
        assert(replace_all(a, from, to) == Seq::<char>::empty());
        assert(replace_all(a, from, to) + replace_all(b, from, to) =~= replace_all(b, from, to));
    } else if m <= s.len() && s.take(m) == from {
        if m > a.len() {
            let i: int = 0;
            assert(s.subrange(i, i + from.len()) =~= s.take(m));
            assert(straddles(a, b, from));
        }
        assert(a.take(m) =~= s.take(m));
        let a2 = a.skip(m);
        assert(a2 + b =~= s.skip(m));
        assert(!straddles(a2, b, from)) by {
            if straddles(a2, b, from) {
                let i = choose|i: int|
                    0 <= i < a2.len() && a2.len() < i + from.len() <= a2.len() + b.len()
                        && #[trigger] (a2 + b).subrange(i, i + from.len()) == from;
                assert((a2 + b).subrange(i, i + from.len()) =~= s.subrange(i + m, i + m + from.len()));
                assert(s.subrange(i + m, i + m + from.len()) == from);
            }
        }
        law_replace_concat(a2, b, from, to);
        assert(replace_all(s, from, to) == to + replace_all(s.skip(m), from, to));
        assert(replace_all(a, from, to) == to + replace_all(a2, from, to));
        assert(replace_all(s, from, to) =~= replace_all(a, from, to) + replace_all(b, from, to));
    } else {
        if m <= a.len() && a.take(m) == from {
            assert(s.take(m) =~= a.take(m));
        }
        let a2 = a.drop_first();
        assert(a2 + b =~= s.drop_first());
        assert(!straddles(a2, b, from)) by {
            if straddles(a2, b, from) {
                let i = choose|i: int|
                    0 <= i < a2.len() && a2.len() < i + from.len() <= a2.len() + b.len()
                        && #[trigger] (a2 + b).subrange(i, i + from.len()) == from;
                assert((a2 + b).subrange(i, i + from.len()) =~= s.subrange(i + 1, i + 1 + from.len()));
                assert(s.subrange(i + 1, i + 1 + from.len()) == from);
            }
        }
        law_replace_concat(a2, b, from, to);
        assert(s[0] == a[0]);
        assert(replace_all(s, from, to) == seq![s[0]] + replace_all(s.drop_first(), from, to));
        assert(replace_all(a, from, to) == seq![a[0]] + replace_all(a2, from, to));
        assert(replace_all(s, from, to) =~= replace_all(a, from, to) + replace_all(b, from, to));
    }
}

/// A text that starts with a non-empty pattern has it replaced.
pub proof fn law_replace_leading(b: Seq<char>, from: Seq<char>, to: Seq<char>)
    requires
        from.len() > 0,
    ensures
        replace_all(from + b, from, to) == to + replace_all(b, from, to),
{
    let s = from + b;
    assert(s.take(from.len() as int) =~= from);
    assert(s.skip(from.len() as int) =~= b);
}

} // verus!
