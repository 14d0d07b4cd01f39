//! A URL parser and the parsed form it produces.
//!
//! The grammar read here is the plain `scheme://authority/path?query#fragment`
//! layout:
//!
//! - the scheme is the non-empty text before the first `:`, which must be
//!   followed by `//`, and must name one of the four known schemes;
//! - the authority runs to the next `/`, `?` or `#`; inside it, a non-empty
//!   user part may stand before `@`, and after an optional `:` the rest must
//!   be a decimal port that fits an unsigned 32-bit number;
//! - the path runs to the next `?` or `#`;
//! - after `?`, the query runs to the next `#` and is `key=value` pairs
//!   separated by `&`, each with a non-empty key (without `=`) and a
//!   non-empty value;
//! - after `#`, the rest is the fragment.

use vstd::prelude::*;

use crate::parse::{all_digits, digit_val, digits_val, is_u32_decimal};

verus! {

/// Why a URL failed to parse.
#[derive(Clone, Copy, Debug, PartialEq, Eq, Structural)]
pub enum ParseError {
    /// No `:` after a non-empty scheme, or no `//` after it.
    Malformed,
    /// The scheme is none of the four known ones.
    InvalidScheme,
    /// An `@` with an empty user part before it.
    InvalidAuthority,
    /// A `:` in the authority not followed by a decimal port that fits.
    InvalidPort,
    /// A `&`-separated piece of the query without `=`, or with an empty key
    /// or value.
    InvalidQuery,
    /// A percent escape that is not `%` and two hex digits, or escapes that
    /// do not spell a well-formed UTF-8 encoding of one character.
    InvalidEncoding,
}

/// Relies on `char::from_u32`: a character comes back exactly when the value
/// is a Unicode scalar (below the surrogate range, or above it and at most
/// the largest scalar), and it is the character with that scalar value.
pub assume_specification[ char::from_u32 ](v: u32) -> (c: Option<char>)
    ensures
        c.is_some() == (v < 0xD800 || (0xE000 <= v && v <= 0x10FFFF)),
        c matches Some(ch) ==> ch as u32 == v,
;

/// Relies on `String`'s `FromIterator` impl, through `collect`: the string
/// holds exactly the given characters, in order.
#[verifier::external_body]
fn chars_to_string(chars: &Vec<char>) -> (text: String)
    ensures
        text@ == chars@,
{
    chars.iter().collect()
}

/// The four schemes this parser knows.
#[derive(Clone, Copy, Debug, PartialEq, Eq, Structural)]
pub enum URLScheme {
    HTTPS,
    HTTP,
    FILE,
    FTP,
}

/// The text of each known scheme.
pub open spec fn scheme_text(scheme: URLScheme) -> Seq<char> {
    match scheme {
        URLScheme::FILE => "file"@,
        URLScheme::FTP => "ftp"@,
        URLScheme::HTTP => "http"@,
        URLScheme::HTTPS => "https"@,
    }
}

impl URLScheme {
    /// The scheme's name in lower case.
    pub fn as_str(&self) -> (name: &str)
        ensures
            name@ == scheme_text(*self),
    {
        match self {
            URLScheme::FILE => "file",
            URLScheme::FTP => "ftp",
            URLScheme::HTTP => "http",
            URLScheme::HTTPS => "https",
        }
    }
}

/// How many leading characters of `t` avoid all three stop characters.
pub open spec fn open_run(t: Seq<char>, stops: Set<char>) -> int
    decreases t.len(),
{
    if t.len() == 0 {
        0
    } else if stops.contains(t[0]) {
        0
    } else {
        1 + open_run(t.drop_first(), stops)
    }
}

proof fn lemma_open_run_at(t: Seq<char>, stops: Set<char>, i: int)
    requires
        0 <= i <= t.len(),
        forall|j: int| 0 <= j < i ==> !stops.contains(t[j]),
        i < t.len() ==> stops.contains(t[i]),
    ensures
        open_run(t, stops) == i,
    decreases i,
{
    if t.len() > 0 {
        if i > 0 {
            lemma_open_run_at(t.drop_first(), stops, i - 1);
        }
    }
}

/// The run is never longer than the text.
proof fn lemma_open_run_len(t: Seq<char>, stops: Set<char>)
    ensures
        0 <= open_run(t, stops) <= t.len(),
        open_run(t, stops) < t.len() ==> stops.contains(t[open_run(t, stops)]),
        forall|j: int| 0 <= j < open_run(t, stops) ==> !stops.contains(t[j]),
    decreases t.len(),
{
    if t.len() > 0 && !stops.contains(t[0]) {
        lemma_open_run_len(t.drop_first(), stops);
        assert forall|j: int| 0 <= j < open_run(t, stops) implies !stops.contains(t[j]) by {
            if j > 0 {
                assert(t.drop_first()[j - 1] == t[j]);
            }
        }
    }
}

/// Counts the characters of `s`, from `from` on, before the first of the
/// three stop characters.
fn scan_open_run(s: &str, from: usize, a: char, b: char, c: char) -> (run: usize)
    requires
        from <= s@.len(),
    ensures
        run == open_run(s@.skip(from as int), set![a, b, c]),
        from + run <= s@.len(),
{
    let count = s.unicode_len();
    let ghost stops = set![a, b, c];
    let ghost t = s@.skip(from as int);
    let mut at: usize = from;
    while at < count
        invariant
            from <= at <= count,
            count == s@.len(),
            t == s@.skip(from as int),
            stops == set![a, b, c],
            forall|j: int| 0 <= j < at - from ==> !stops.contains(t[j]),
        decreases count - at,
    {
        let ch = s.get_char(at);
        if ch == a || ch == b || ch == c {
            proof {
                assert(t[at - from] == s@[at as int]);
                lemma_open_run_at(t, stops, at - from);
            }
            return at - from;
        }
        proof {
            assert(t[at - from] == s@[at as int]);
        }
        at = at + 1;
    }
    proof {
        lemma_open_run_at(t, stops, count - from);
    }
    count - from
}

/// Whether the authority text has a user part (an `@` occurs).
pub open spec fn auth_has_user(a: Seq<char>) -> bool {
    open_run(a, set!['@']) < a.len()
}

/// The user part of the authority text, if an `@` occurs.
pub open spec fn auth_user(a: Seq<char>) -> Option<Seq<char>> {
    if auth_has_user(a) {
        Some(a.subrange(0, open_run(a, set!['@'])))
    } else {
        None
    }
}

/// The authority text after the user part, if any: host, and maybe a port.
pub open spec fn auth_tail(a: Seq<char>) -> Seq<char> {
    if auth_has_user(a) {
        a.skip(open_run(a, set!['@']) + 1)
    } else {
        a
    }
}

/// The host: the rest of the authority up to a `:`.
pub open spec fn auth_host(a: Seq<char>) -> Seq<char> {
    auth_tail(a).subrange(0, open_run(auth_tail(a), set![':']))
}

/// Whether the authority text carries a port (a `:` after the user part).
pub open spec fn auth_has_port(a: Seq<char>) -> bool {
    open_run(auth_tail(a), set![':']) < auth_tail(a).len()
}

/// The text after the port's `:`.
pub open spec fn auth_port_text(a: Seq<char>) -> Seq<char> {
    auth_tail(a).skip(open_run(auth_tail(a), set![':']) + 1)
}

/// The authority text parses: any user part is non-empty, and any port text
/// is a decimal number that fits an unsigned 32-bit value.
pub open spec fn auth_ok(a: Seq<char>) -> bool {
    &&& (auth_has_user(a) ==> open_run(a, set!['@']) >= 1)
    &&& (auth_has_port(a) ==> is_u32_decimal(auth_port_text(a)))
}

/// The port carried by the authority text, if any.
pub open spec fn auth_port(a: Seq<char>) -> Option<u32> {
    if auth_has_port(a) {
        Some(digits_val(auth_port_text(a)) as u32)
    } else {
        None
    }
}

/// Which error an unparsable authority text draws.
pub open spec fn auth_fault(a: Seq<char>) -> ParseError {
    if auth_has_user(a) && open_run(a, set!['@']) == 0 {
        ParseError::InvalidAuthority
    } else {
        ParseError::InvalidPort
    }
}

/// Who may act (the user), where (the host), and on which port.
#[derive(Debug)]
pub struct Authority {
    user_info: Option<String>,
    host: String,
    port: Option<u32>,
}

impl Authority {
    /// The user part, if one was given.
    pub closed spec fn user_view(&self) -> Option<Seq<char>> {
        match self.user_info {
            Some(u) => Some(u@),
            None => None,
        }
    }

    /// The host text.
    pub closed spec fn host_view(&self) -> Seq<char> {
        self.host@
    }

    /// The port, if one was given.
    pub closed spec fn port_view(&self) -> Option<u32> {
        self.port
    }

    /// Reads `user@host:port` with both the user part and the port optional.
    pub fn parse(s: &str) -> (parsed: Result<Authority, ParseError>)
        ensures
            parsed.is_ok() == auth_ok(s@),
            parsed.is_err() ==> parsed == Err::<Authority, ParseError>(auth_fault(s@)),
            parsed matches Ok(a) ==> a.user_view() == auth_user(s@) && a.host_view()
                == auth_host(s@) && a.port_view() == auth_port(s@),
    {
        let count = s.unicode_len();
        let user_run = scan_open_run(s, 0, '@', '@', '@');
        proof {
            assert(set!['@', '@', '@'] =~= set!['@']);
            assert(s@.skip(0) =~= s@);
        }
        let (user_info, tail_from) = if user_run < count {
            if user_run == 0 {
                return Err(ParseError::InvalidAuthority);
            }
            (Some(s.substring_char(0, user_run).to_owned()), user_run + 1)
        } else {
            (None, 0)
        };
        proof {
            assert(s@.skip(tail_from as int) =~= auth_tail(s@));
        }
        let host_run = scan_open_run(s, tail_from, ':', ':', ':');
        proof {
            assert(set![':', ':', ':'] =~= set![':']);
            assert(s@.subrange(tail_from as int, tail_from + host_run) =~= auth_host(s@));
        }
        let host = s.substring_char(tail_from, tail_from + host_run).to_owned();
        let host_end = tail_from + host_run;
        let port = if host_end < count {
            proof {
                assert(s@.subrange(host_end + 1, count as int) =~= auth_port_text(s@));
            }
            let port_text = s.substring_char(host_end + 1, count);
            match crate::parse::parse_u32(port_text) {
                Some(number) => Some(number),
                None => {
                    return Err(ParseError::InvalidPort);
                },
            }
        } else {
            None
        };
        Ok(Authority { user_info, host, port })
    }
}

/// Reads one `key=value` piece of a query: the key is the non-empty text
/// before the first `=`, the value the non-empty rest.
pub open spec fn pair_of(piece: Seq<char>) -> Option<(Seq<char>, Seq<char>)> {
    let e = open_run(piece, set!['=']);
    if 1 <= e && e < piece.len() && piece.len() - e - 1 >= 1 {
        Some((piece.subrange(0, e), piece.skip(e + 1)))
    } else {
        None
    }
}

/// Reads a whole query: `key=value` pieces separated by `&`. Nothing comes
/// back if any piece fails to parse; an empty query holds no pairs.
pub open spec fn query_pairs(q: Seq<char>) -> Option<Seq<(Seq<char>, Seq<char>)>>
    decreases q.len(),
{
    if q.len() == 0 {
        Some(Seq::empty())
    } else {
        let cut = open_run(q, set!['&']);
        match pair_of(q.subrange(0, cut)) {
            None => None,
            Some(p) => {
                if 0 <= cut && cut < q.len() {
                    match query_pairs(q.skip(cut + 1)) {
                        None => None,
                        Some(rest) => Some(seq![p] + rest),
                    }
                } else {
                    Some(seq![p])
                }
            },
        }
    }
}

/// The value of the last pair bearing `key`, if any; a later pair overrules
/// an earlier one with the same key.
pub open spec fn lookup_pair(ps: Seq<(Seq<char>, Seq<char>)>, key: Seq<char>) -> Option<Seq<char>>
    decreases ps.len(),
{
    if ps.len() == 0 {
        None
    } else if ps.last().0 == key {
        Some(ps.last().1)
    } else {
        lookup_pair(ps.drop_last(), key)
    }
}

proof fn lemma_lookup_found(ps: Seq<(Seq<char>, Seq<char>)>, key: Seq<char>, i: int)
    requires
        0 <= i < ps.len(),
        ps[i].0 == key,
        forall|j: int| i < j < ps.len() ==> ps[j].0 != key,
    ensures
        lookup_pair(ps, key) == Some(ps[i].1),
    decreases ps.len(),
{
    if i < ps.len() - 1 {
        lemma_lookup_found(ps.drop_last(), key, i);
    }
}

proof fn lemma_lookup_missing(ps: Seq<(Seq<char>, Seq<char>)>, key: Seq<char>)
    requires
        forall|j: int| 0 <= j < ps.len() ==> ps[j].0 != key,
    ensures
        lookup_pair(ps, key) is None,
    decreases ps.len(),
{
    if ps.len() > 0 {
        lemma_lookup_missing(ps.drop_last(), key);
    }
}

/// The query written back as text: pairs as `key=value`, joined by `&`.
pub open spec fn render_pairs(ps: Seq<(Seq<char>, Seq<char>)>) -> Seq<char>
    decreases ps.len(),
{
    if ps.len() == 0 {
        Seq::empty()
    } else if ps.len() == 1 {
        ps[0].0 + "="@ + ps[0].1
    } else {
        ps[0].0 + "="@ + ps[0].1 + "&"@ + render_pairs(ps.drop_first())
    }
}

proof fn lemma_render_push(ps: Seq<(Seq<char>, Seq<char>)>, p: (Seq<char>, Seq<char>))
    ensures
        ps.len() == 0 ==> render_pairs(ps.push(p)) == p.0 + "="@ + p.1,
        ps.len() > 0 ==> render_pairs(ps.push(p)) == render_pairs(ps) + "&"@ + p.0 + "="@ + p.1,
    decreases ps.len(),
{
    let grown = ps.push(p);
    if ps.len() == 0 {
        assert(grown[0] == p);
    } else {
        lemma_render_push(ps.drop_first(), p);
        assert(grown.drop_first() =~= ps.drop_first().push(p));
        assert(grown[0] == ps[0]);
        if ps.len() == 1 {
            assert(render_pairs(grown) =~= render_pairs(ps) + "&"@ + p.0 + "="@ + p.1);
        } else {
            assert(render_pairs(grown) =~= render_pairs(ps) + "&"@ + p.0 + "="@ + p.1);
        }
    }
}

/// The `key=value` pairs of a URL's query, in the order given.
#[derive(Debug)]
pub struct Query {
    parameters: Vec<(String, String)>,
}

impl Query {
    /// The pairs held, in the order given.
    pub closed spec fn pairs_view(&self) -> Seq<(Seq<char>, Seq<char>)> {
        self.parameters@.map_values(|p: (String, String)| (p.0@, p.1@))
    }

    /// A query with no pairs.
    pub fn new() -> (empty: Query)
        ensures
            empty.pairs_view() == Seq::<(Seq<char>, Seq<char>)>::empty(),
    {
        let empty = Query { parameters: Vec::new() };
        proof {
            assert(empty.pairs_view() =~= Seq::<(Seq<char>, Seq<char>)>::empty());
        }
        empty
    }

    /// Reads the text of a query; nothing comes back unless every
    /// `&`-separated piece is a `key=value` pair.
    pub fn parse(s: &str) -> (parsed: Result<Query, ParseError>)
        ensures
            parsed.is_ok() == query_pairs(s@).is_some(),
            parsed matches Ok(q) ==> Some(q.pairs_view()) == query_pairs(s@),
            parsed.is_err() ==> parsed == Err::<Query, ParseError>(ParseError::InvalidQuery),
    {
        let count = s.unicode_len();
        let mut parameters: Vec<(String, String)> = Vec::new();
        let mut at: usize = 0;
        proof {
            assert(s@.skip(0) =~= s@);
        }
        while at < count
            invariant
                0 <= at <= count,
                count == s@.len(),
                query_pairs(s@) == (match query_pairs(s@.skip(at as int)) {
                    Some(rest) => Some(
                        Query { parameters }.pairs_view() + rest,
                    ),
                    None => None::<Seq<(Seq<char>, Seq<char>)>>,
                }),
            decreases count - at,
        {
            let ghost remain = s@.skip(at as int);
            let run = scan_open_run(s, at, '&', '&', '&');
            proof {
                assert(set!['&', '&', '&'] =~= set!['&']);
                lemma_open_run_len(remain, set!['&']);
                assert(s@.subrange(at as int, at + run) =~= remain.subrange(0, run as int));
            }
            let piece = s.substring_char(at, at + run);
            let eq_run = scan_open_run(piece, 0, '=', '=', '=');
            proof {
                assert(set!['=', '=', '='] =~= set!['=']);
                assert(piece@.skip(0) =~= piece@);
            }
            if eq_run == 0 || eq_run >= run || run - eq_run - 1 == 0 {
                proof {
                    assert(pair_of(remain.subrange(0, run as int)) is None);
                }
                return Err(ParseError::InvalidQuery);
            }
            let key = piece.substring_char(0, eq_run).to_owned();
            let value = piece.substring_char(eq_run + 1, run).to_owned();
            let ghost p = (key@, value@);
            let ghost held = Query { parameters }.pairs_view();
            proof {
                assert(piece@.subrange(0, eq_run as int) == p.0);
                assert(piece@.skip(eq_run as int + 1) =~= p.1);
                assert(pair_of(remain.subrange(0, run as int)) == Some(p));
            }
            parameters.push((key, value));
            proof {
                assert(Query { parameters }.pairs_view() =~= held.push(p));
            }
            if at + run < count {
                proof {
                    let rest = remain.skip(run as int + 1);
                    assert(rest =~= s@.skip(at + run + 1));
                    assert(query_pairs(remain) == (match query_pairs(rest) {
                        Some(more) => Some(seq![p] + more),
                        None => None::<Seq<(Seq<char>, Seq<char>)>>,
                    }));
                    let tail_pairs = query_pairs(rest);
                    if tail_pairs is Some {
                        assert(held + (seq![p] + tail_pairs.unwrap()) =~= held.push(p)
                            + tail_pairs.unwrap());
                    }
                }
                at = at + run + 1;
            } else {
                proof {
                    assert(query_pairs(remain) == Some(seq![p]));
                    assert(held + seq![p] =~= held.push(p));
                    assert(s@.skip(count as int) =~= Seq::<char>::empty());
                }
                at = count;
            }
        }
        proof {
            assert(s@.skip(count as int) =~= Seq::<char>::empty());
            assert(query_pairs(s@.skip(at as int)) == Some(Seq::<(Seq<char>, Seq<char>)>::empty()));
            assert(Query { parameters }.pairs_view() + Seq::<(Seq<char>, Seq<char>)>::empty()
                =~= Query { parameters }.pairs_view());
        }
        Ok(Query { parameters })
    }

    /// Borrows the value of the last pair bearing `key`, if any.
    pub fn get(&self, key: &str) -> (found: Option<&String>)
        ensures
            found.is_some() == lookup_pair(self.pairs_view(), key@).is_some(),
            found matches Some(v) ==> Some(v@) == lookup_pair(self.pairs_view(), key@),
    {
        let wanted = key.to_owned();
        let mut i = self.parameters.len();
        while i > 0
            invariant
                i <= self.parameters.len(),
                wanted@ == key@,
                forall|j: int| i <= j < self.pairs_view().len() ==> self.pairs_view()[j].0 != key@,
            decreases i,
        {
            i = i - 1;
            if self.parameters[i].0 == wanted {
                proof {
                    lemma_lookup_found(self.pairs_view(), key@, i as int);
                }
                return Some(&self.parameters[i].1);
            }
        }
        proof {
            lemma_lookup_missing(self.pairs_view(), key@);
        }
        None
    }

    /// Writes the query back as text: `key=value` pairs joined by `&`.
    pub fn to_string(&self) -> (text: String)
        ensures
            text@ == render_pairs(self.pairs_view()),
    {
        let mut text = String::new();
        let mut i: usize = 0;
        proof {
            assert(self.pairs_view().subrange(0, 0) =~= Seq::<(Seq<char>, Seq<char>)>::empty());
        }
        while i < self.parameters.len()
            invariant
                0 <= i <= self.parameters.len(),
                text@ == render_pairs(self.pairs_view().subrange(0, i as int)),
            decreases self.parameters.len() - i,
        {
            let ghost done = self.pairs_view().subrange(0, i as int);
            if i > 0 {
                text.append("&");
            }
            text.append(self.parameters[i].0.as_str());
            text.append("=");
            text.append(self.parameters[i].1.as_str());
            proof {
                lemma_render_push(done, self.pairs_view()[i as int]);
                assert(done.push(self.pairs_view()[i as int]) =~= self.pairs_view().subrange(
                    0,
                    i as int + 1,
                ));
            }
            i = i + 1;
        }
        proof {
            assert(self.pairs_view().subrange(0, self.pairs_view().len() as int)
                =~= self.pairs_view());
        }
        text
    }
}

/// The digit character of a single decimal value.
pub open spec fn digit_char(d: int) -> char {
    if d == 0 {
        '0'
    } else if d == 1 {
        '1'
    } else if d == 2 {
        '2'
    } else if d == 3 {
        '3'
    } else if d == 4 {
        '4'
    } else if d == 5 {
        '5'
    } else if d == 6 {
        '6'
    } else if d == 7 {
        '7'
    } else if d == 8 {
        '8'
    } else {
        '9'
    }
}

/// The decimal notation of `v`, most significant digit first.
pub open spec fn dec_of(v: int) -> Seq<char>
    decreases v,
{
    if v < 10 {
        seq![digit_char(v)]
    } else {
        dec_of(v / 10).push(digit_char(v % 10))
    }
}

/// The decimal notation written by `dec_of` reads back as the number it
/// came from: every character is a digit, and the digits spell `v`.
pub proof fn lemma_dec_of_reads_back(v: int)
    requires
        v >= 0,
    ensures
        all_digits(dec_of(v)),
        digits_val(dec_of(v)) == v,
        dec_of(v).len() >= 1,
    decreases v,
{
    let s = dec_of(v);
    if v < 10 {
        assert(s.drop_last() =~= Seq::<char>::empty());
        assert(s.last() == digit_char(v));
        assert(digits_val(Seq::<char>::empty()) == 0);
        assert(digit_val(digit_char(v)) == v);
    } else {
        lemma_dec_of_reads_back(v / 10);
        assert(s.drop_last() =~= dec_of(v / 10));
        assert(s.last() == digit_char(v % 10));
        assert(digit_val(digit_char(v % 10)) == v % 10);
        assert forall|i: int| 0 <= i < s.len() implies crate::parse::is_digit(s[i]) by {
            if i < s.len() - 1 {
                assert(s[i] == dec_of(v / 10)[i]);
            }
        }
    }
}

/// The text of one digit.
fn digit_str(d: u32) -> (text: &'static str)
    requires
        d < 10,
    ensures
        text@ == seq![digit_char(d as int)],
{
    let text = if d == 0 {
        "0"
    } else if d == 1 {
        "1"
    } else if d == 2 {
        "2"
    } else if d == 3 {
        "3"
    } else if d == 4 {
        "4"
    } else if d == 5 {
        "5"
    } else if d == 6 {
        "6"
    } else if d == 7 {
        "7"
    } else if d == 8 {
        "8"
    } else {
        "9"
    };
    proof {
        reveal_strlit("0");
        reveal_strlit("1");
        reveal_strlit("2");
        reveal_strlit("3");
        reveal_strlit("4");
        reveal_strlit("5");
        reveal_strlit("6");
        reveal_strlit("7");
        reveal_strlit("8");
        reveal_strlit("9");
        assert(text@ =~= seq![digit_char(d as int)]);
    }
    text
}

/// Writes the decimal notation of `v` onto the end of `out`.
fn append_dec(v: u32, out: &mut String)
    ensures
        final(out)@ == old(out)@ + dec_of(v as int),
    decreases v,
{
    if v < 10 {
        out.append(digit_str(v));
    } else {
        append_dec(v / 10, out);
        out.append(digit_str(v % 10));
        proof {
            assert(out@ =~= old(out)@ + dec_of(v as int));
        }
    }
}

/// A character the percent-encoding must escape even though it is ASCII.
pub open spec fn is_url_reserved(c: char) -> bool {
    ||| c == '!'
    ||| c == '*'
    ||| c == '\''
    ||| c == '('
    ||| c == ')'
    ||| c == ';'
    ||| c == ':'
    ||| c == '@'
    ||| c == '&'
    ||| c == '='
    ||| c == '+'
    ||| c == '$'
    ||| c == ','
    ||| c == '/'
    ||| c == '?'
    ||| c == '%'
    ||| c == '#'
    ||| c == '['
    ||| c == ']'
}

/// A character the percent-encoding passes through unchanged.
pub open spec fn is_plain_char(c: char) -> bool {
    (c as u32) < 0x80 && !is_url_reserved(c)
}

/// The upper-case hex digit of a single value.
pub open spec fn hex_char(d: int) -> char {
    if d < 10 {
        digit_char(d)
    } else if d == 10 {
        'A'
    } else if d == 11 {
        'B'
    } else if d == 12 {
        'C'
    } else if d == 13 {
        'D'
    } else if d == 14 {
        'E'
    } else {
        'F'
    }
}

/// One byte as a `%XX` escape.
pub open spec fn percent_of(b: u8) -> Seq<char> {
    seq!['%', hex_char(b as int / 16), hex_char(b as int % 16)]
}

/// A run of bytes as `%XX` escapes.
pub open spec fn percent_all(bytes: Seq<u8>) -> Seq<char>
    decreases bytes.len(),
{
    if bytes.len() == 0 {
        Seq::empty()
    } else {
        percent_of(bytes.first()) + percent_all(bytes.drop_first())
    }
}

/// One character percent-encoded: kept as it is when plain, else each byte
/// of its UTF-8 encoding as a `%XX` escape.
pub open spec fn enc_char(c: char) -> Seq<char> {
    if is_plain_char(c) {
        seq![c]
    } else {
        percent_all(vstd::utf8::encode_scalar(c as u32))
    }
}

/// A whole text percent-encoded, character by character.
pub open spec fn percent_encode(s: Seq<char>) -> Seq<char>
    decreases s.len(),
{
    if s.len() == 0 {
        Seq::empty()
    } else {
        enc_char(s.first()) + percent_encode(s.drop_first())
    }
}

proof fn lemma_percent_encode_push(s: Seq<char>, c: char)
    ensures
        percent_encode(s.push(c)) == percent_encode(s) + enc_char(c),
    decreases s.len(),
{
    let grown = s.push(c);
    if s.len() == 0 {
        assert(grown.drop_first() =~= s);
        assert(grown.first() == c);
        assert(percent_encode(grown) =~= percent_encode(s) + enc_char(c));
    } else {
        lemma_percent_encode_push(s.drop_first(), c);
        assert(grown.drop_first() =~= s.drop_first().push(c));
        assert(grown.first() == s.first());
        assert(percent_encode(grown) =~= percent_encode(s) + enc_char(c));
    }
}

/// The text of one upper-case hex digit.
fn hex_str(d: u8) -> (text: &'static str)
    requires
        d < 16,
    ensures
        text@ == seq![hex_char(d as int)],
{
    if d < 10 {
        digit_str(d as u32)
    } else {
        let text = if d == 10 {
            "A"
        } else if d == 11 {
            "B"
        } else if d == 12 {
            "C"
        } else if d == 13 {
            "D"
        } else if d == 14 {
            "E"
        } else {
            "F"
        };
        proof {
            reveal_strlit("A");
            reveal_strlit("B");
            reveal_strlit("C");
            reveal_strlit("D");
            reveal_strlit("E");
            reveal_strlit("F");
            assert(text@ =~= seq![hex_char(d as int)]);
        }
        text
    }
}

/// Writes one byte as a `%XX` escape onto the end of `out`.
fn append_percent(b: u8, out: &mut String)
    ensures
        final(out)@ == old(out)@ + percent_of(b),
{
    out.append("%");
    out.append(hex_str(b / 16));
    out.append(hex_str(b % 16));
    proof {
        reveal_strlit("%");
        assert(out@ =~= old(out)@ + percent_of(b));
    }
}

/// Percent-encodes a text: ASCII characters outside the reserved set pass
/// through; every other character becomes the `%XX` escapes of its UTF-8
/// bytes, with upper-case hex digits.
pub fn encode_url(s: &str) -> (encoded: String)
    ensures
        encoded@ == percent_encode(s@),
{
    broadcast use vstd::utf8::char_is_scalar;

    let count = s.unicode_len();
    let mut encoded = String::new();
    let mut at: usize = 0;
    proof {
        assert(s@.subrange(0, 0) =~= Seq::<char>::empty());
    }
    while at < count
        invariant
            0 <= at <= count,
            count == s@.len(),
            encoded@ == percent_encode(s@.subrange(0, at as int)),
        decreases count - at,
    {
        let ghost done = s@.subrange(0, at as int);
        let c = s.get_char(at);
        let cp = c as u32;
        let escape = cp >= 0x80 || reserved_char(c);
        if !escape {
            let one = s.substring_char(at, at + 1);
            encoded.append(one);
            proof {
                assert(one@ =~= seq![c]);
            }
        } else {
            proof {
                assert(vstd::utf8::is_scalar(cp));
            }
            if cp < 0x80 {
                let b1 = (cp & 0x7F) as u8;
                append_percent(b1, &mut encoded);
                proof {
                    assert(vstd::utf8::encode_scalar(cp) =~= seq![b1]);
                    assert(seq![b1].drop_first() =~= Seq::<u8>::empty());
                    assert(percent_all(Seq::<u8>::empty()) =~= Seq::<char>::empty());
                    assert(percent_all(seq![b1]) =~= percent_of(b1));
                    assert(enc_char(c) =~= percent_of(b1));
                }
            } else if cp < 0x800 {
                let b1 = 0xC0u8 | (((cp >> 6u32) & 0x1F) as u8);
                let b2 = 0x80u8 | ((cp & 0x3F) as u8);
                append_percent(b1, &mut encoded);
                append_percent(b2, &mut encoded);
                proof {
                    assert(vstd::utf8::encode_scalar(cp) =~= seq![b1, b2]);
                    assert(seq![b1, b2].drop_first() =~= seq![b2]);
                    assert(seq![b2].drop_first() =~= Seq::<u8>::empty());
                    assert(percent_all(Seq::<u8>::empty()) =~= Seq::<char>::empty());
                    assert(percent_all(seq![b2]) =~= percent_of(b2));
                    assert(percent_all(seq![b1, b2]) =~= percent_of(b1) + percent_of(b2));
                    assert(enc_char(c) =~= percent_of(b1) + percent_of(b2));
                }
            } else if cp < 0x10000 {
                let b1 = 0xE0u8 | (((cp >> 12u32) & 0x0F) as u8);
                let b2 = 0x80u8 | (((cp >> 6u32) & 0x3F) as u8);
                let b3 = 0x80u8 | ((cp & 0x3F) as u8);
                append_percent(b1, &mut encoded);
                append_percent(b2, &mut encoded);
                append_percent(b3, &mut encoded);
                proof {
                    assert(vstd::utf8::encode_scalar(cp) =~= seq![b1, b2, b3]);
                    assert(seq![b1, b2, b3].drop_first() =~= seq![b2, b3]);
                    assert(seq![b2, b3].drop_first() =~= seq![b3]);
                    assert(seq![b3].drop_first() =~= Seq::<u8>::empty());
                    assert(percent_all(Seq::<u8>::empty()) =~= Seq::<char>::empty());
                    assert(percent_all(seq![b3]) =~= percent_of(b3));
                    assert(percent_all(seq![b2, b3]) =~= percent_of(b2) + percent_of(b3));
                    assert(percent_all(seq![b1, b2, b3]) =~= percent_of(b1) + (percent_of(b2)
                        + percent_of(b3)));
                    assert(enc_char(c) =~= percent_of(b1) + (percent_of(b2) + percent_of(b3)));
                }
            } else {
                let b1 = 0xF0u8 | (((cp >> 18u32) & 0x7) as u8);
                let b2 = 0x80u8 | (((cp >> 12u32) & 0x3F) as u8);
                let b3 = 0x80u8 | (((cp >> 6u32) & 0x3F) as u8);
                let b4 = 0x80u8 | ((cp & 0x3F) as u8);
                append_percent(b1, &mut encoded);
                append_percent(b2, &mut encoded);
                append_percent(b3, &mut encoded);
                append_percent(b4, &mut encoded);
                proof {
                    assert(vstd::utf8::encode_scalar(cp) =~= seq![b1, b2, b3, b4]);
                    assert(seq![b1, b2, b3, b4].drop_first() =~= seq![b2, b3, b4]);
                    assert(seq![b2, b3, b4].drop_first() =~= seq![b3, b4]);
                    assert(seq![b3, b4].drop_first() =~= seq![b4]);
                    assert(seq![b4].drop_first() =~= Seq::<u8>::empty());
                    assert(percent_all(Seq::<u8>::empty()) =~= Seq::<char>::empty());
                    assert(percent_all(seq![b4]) =~= percent_of(b4));
                    assert(percent_all(seq![b3, b4]) =~= percent_of(b3) + percent_of(b4));
                    assert(percent_all(seq![b2, b3, b4]) =~= percent_of(b2) + (percent_of(b3)
                        + percent_of(b4)));
                    assert(percent_all(seq![b1, b2, b3, b4]) =~= percent_of(b1) + (percent_of(b2)
                        + (percent_of(b3) + percent_of(b4))));
                    assert(enc_char(c) =~= percent_of(b1) + (percent_of(b2) + (percent_of(b3)
                        + percent_of(b4))));
                }
            }
        }
        at = at + 1;
        proof {
            lemma_percent_encode_push(done, c);
            assert(s@.subrange(0, at as int) =~= done.push(c));
        }
    }
    proof {
        assert(s@.subrange(0, count as int) =~= s@);
    }
    encoded
}

/// Percent-decodes a text: plain characters pass through, and each run of
/// `%XX` escapes that spells the UTF-8 encoding of one character becomes
/// that character. An escape run that spells anything else is refused.
pub fn decode_url(s: &str) -> (decoded: Result<String, ParseError>)
    ensures
        decoded.is_ok() == percent_decode(s@).is_some(),
        decoded matches Ok(d) ==> Some(d@) == percent_decode(s@),
        decoded.is_err() ==> decoded == Err::<String, ParseError>(ParseError::InvalidEncoding),
{
    let count = s.unicode_len();
    let mut out: Vec<char> = Vec::new();
    let mut at: usize = 0;
    proof {
        assert(s@.skip(0) =~= s@);
    }
    while at < count
        invariant
            0 <= at <= count,
            count == s@.len(),
            percent_decode(s@) == (match percent_decode(s@.skip(at as int)) {
                Some(rest) => Some(out@ + rest),
                None => None::<Seq<char>>,
            }),
        decreases count - at,
    {
        let ghost remain = s@.skip(at as int);
        let ghost held = out@;
        let c = s.get_char(at);
        if c != '%' {
            out.push(c);
            at = at + 1;
            proof {
                assert(remain[0] == c);
                assert(remain.drop_first() =~= s@.skip(at as int));
                let tail = percent_decode(s@.skip(at as int));
                if tail is Some {
                    assert(held + (seq![c] + tail.unwrap()) =~= out@ + tail.unwrap());
                }
            }
        } else {
            proof {
                assert(remain[0] == c);
                lemma_escape_shift(s@, at as int, 0);
            }
            let first = read_escape(s, at);
            if first.is_none() {
                proof {
                    assert(group_bytes(remain) =~= Seq::<u8>::empty());
                }
                return Err(ParseError::InvalidEncoding);
            }
            let b0 = first.unwrap();
            let stride: usize;
            let code: u32;
            if b0 < 0x80 {
                code = b0 as u32;
                stride = 1;
                proof {
                    assert(group_bytes(remain) =~= seq![b0]);
                    assert(group_bytes(remain)[0] == b0);
                    assert(vstd::utf8::valid_first_scalar(group_bytes(remain)));
                    assert((b0 & 0x7F) == b0) by (bit_vector)
                        requires
                            b0 < 0x80,
                    ;
                    assert(vstd::utf8::decode_first_scalar(group_bytes(remain)) == code);
                }
            } else if 0xC0 <= b0 && b0 <= 0xDF {
                proof {
                    lemma_escape_shift(s@, at as int, 3);
                }
                let second = read_escape(s, at + 3);
                if second.is_none() {
                    proof {
                        assert(group_bytes(remain) =~= Seq::<u8>::empty());
                    }
                    return Err(ParseError::InvalidEncoding);
                }
                let b1 = second.unwrap();
                let ghost bytes = seq![b0, b1];
                proof {
                    assert(group_bytes(remain) =~= bytes);
                    assert(bytes[0] == b0 && bytes[1] == b1);
                }
                if !(0x80 <= b1 && b1 <= 0xBF) {
                    proof {
                        assert(!vstd::utf8::valid_first_scalar(bytes));
                    }
                    return Err(ParseError::InvalidEncoding);
                }
                code = (((b0 & 0x1F) as u32) << 6u32) | ((b1 & 0x3F) as u32);
                stride = 2;
                if code < 0x80 {
                    proof {
                        assert(!vstd::utf8::valid_first_scalar(bytes));
                    }
                    return Err(ParseError::InvalidEncoding);
                }
                proof {
                    assert(code < 0xD800) by (bit_vector)
                        requires
                            code == (((b0 & 0x1F) as u32) << 6u32) | ((b1 & 0x3F) as u32),
                    ;
                    assert(vstd::utf8::valid_first_scalar(bytes));
                    assert(vstd::utf8::decode_first_scalar(bytes) == code);
                }
            } else if 0xE0 <= b0 && b0 <= 0xEF {
                proof {
                    lemma_escape_shift(s@, at as int, 3);
                    lemma_escape_shift(s@, at as int, 6);
                }
                let second = read_escape(s, at + 3);
                if second.is_none() {
                    proof {
                        assert(group_bytes(remain) =~= Seq::<u8>::empty());
                    }
                    return Err(ParseError::InvalidEncoding);
                }
                let third = read_escape(s, at + 6);
                if third.is_none() {
                    proof {
                        assert(group_bytes(remain) =~= Seq::<u8>::empty());
                    }
                    return Err(ParseError::InvalidEncoding);
                }
                let b1 = second.unwrap();
                let b2 = third.unwrap();
                let ghost bytes = seq![b0, b1, b2];
                proof {
                    assert(group_bytes(remain) =~= bytes);
                    assert(bytes[0] == b0 && bytes[1] == b1 && bytes[2] == b2);
                }
                if !(0x80 <= b1 && b1 <= 0xBF) || !(0x80 <= b2 && b2 <= 0xBF) {
                    proof {
                        assert(!vstd::utf8::valid_first_scalar(bytes));
                    }
                    return Err(ParseError::InvalidEncoding);
                }
                code = (((b0 & 0x0F) as u32) << 12u32) | (((b1 & 0x3F) as u32) << 6u32) | ((b2
                    & 0x3F) as u32);
                stride = 3;
                if code < 0x800 || (0xD800 <= code && code <= 0xDFFF) {
                    proof {
                        assert(!vstd::utf8::valid_first_scalar(bytes));
                    }
                    return Err(ParseError::InvalidEncoding);
                }
                proof {
                    assert(code <= 0xFFFF) by (bit_vector)
                        requires
                            code == (((b0 & 0x0F) as u32) << 12u32) | (((b1 & 0x3F) as u32)
                                << 6u32) | ((b2 & 0x3F) as u32),
                    ;
                    assert(vstd::utf8::valid_first_scalar(bytes));
                    assert(vstd::utf8::decode_first_scalar(bytes) == code);
                }
            } else if 0xF0 <= b0 && b0 <= 0xF7 {
                proof {
                    lemma_escape_shift(s@, at as int, 3);
                    lemma_escape_shift(s@, at as int, 6);
                    lemma_escape_shift(s@, at as int, 9);
                }
                let second = read_escape(s, at + 3);
                if second.is_none() {
                    proof {
                        assert(group_bytes(remain) =~= Seq::<u8>::empty());
                    }
                    return Err(ParseError::InvalidEncoding);
                }
                let third = read_escape(s, at + 6);
                if third.is_none() {
                    proof {
                        assert(group_bytes(remain) =~= Seq::<u8>::empty());
                    }
                    return Err(ParseError::InvalidEncoding);
                }
                let fourth = read_escape(s, at + 9);
                if fourth.is_none() {
                    proof {
                        assert(group_bytes(remain) =~= Seq::<u8>::empty());
                    }
                    return Err(ParseError::InvalidEncoding);
                }
                let b1 = second.unwrap();
                let b2 = third.unwrap();
                let b3 = fourth.unwrap();
                let ghost bytes = seq![b0, b1, b2, b3];
                proof {
                    assert(group_bytes(remain) =~= bytes);
                    assert(bytes[0] == b0 && bytes[1] == b1 && bytes[2] == b2 && bytes[3] == b3);
                }
                if !(0x80 <= b1 && b1 <= 0xBF) || !(0x80 <= b2 && b2 <= 0xBF) || !(0x80 <= b3
                    && b3 <= 0xBF) {
                    proof {
                        assert(!vstd::utf8::valid_first_scalar(bytes));
                    }
                    return Err(ParseError::InvalidEncoding);
                }
                code = (((b0 & 0x07) as u32) << 18u32) | (((b1 & 0x3F) as u32) << 12u32) | (((b2
                    & 0x3F) as u32) << 6u32) | ((b3 & 0x3F) as u32);
                stride = 4;
                if code < 0x10000 || code > 0x10FFFF {
                    proof {
                        assert(!vstd::utf8::valid_first_scalar(bytes));
                    }
                    return Err(ParseError::InvalidEncoding);
                }
                proof {
                    assert(vstd::utf8::valid_first_scalar(bytes));
                    assert(vstd::utf8::decode_first_scalar(bytes) == code);
                }
            } else {
                proof {
                    assert(group_bytes(remain) =~= Seq::<u8>::empty());
                }
                return Err(ParseError::InvalidEncoding);
            }
            let made = char::from_u32(code);
            proof {
                assert(made.is_some());
            }
            let ch = made.unwrap();
            proof {
                vstd::utf8::char_u32_cast(ch, code);
            }
            out.push(ch);
            at = at + 3 * stride;
            proof {
                assert(3 * group_bytes(remain).len() == 3 * stride);
                assert(remain.skip(3 * stride as int) =~= s@.skip(at as int));
                let tail = percent_decode(s@.skip(at as int));
                if tail is Some {
                    assert(held + (seq![ch] + tail.unwrap()) =~= out@ + tail.unwrap());
                }
            }
        }
    }
    proof {
        assert(s@.skip(count as int) =~= Seq::<char>::empty());
        assert(percent_decode(s@.skip(at as int)) == Some(Seq::<char>::empty()));
        assert(out@ + Seq::<char>::empty() =~= out@);
    }
    Ok(chars_to_string(&out))
}

proof fn lemma_hex_char_round(d: int)
    requires
        0 <= d < 16,
    ensures
        is_hex_digit(hex_char(d)),
        hex_val(hex_char(d)) == d,
        hex_char(d) != '%',
{
}

/// A well-formed escape stands at position `3 * k` of `t` and spells byte
/// `k` of `bytes`.
spec fn escape_spells(t: Seq<char>, bytes: Seq<u8>, k: int) -> bool {
    &&& t[3 * k] == '%'
    &&& is_hex_digit(t[3 * k + 1])
    &&& is_hex_digit(t[3 * k + 2])
    &&& hex_val(t[3 * k + 1]) * 16 + hex_val(t[3 * k + 2]) == bytes[k]
}

/// Escapes written by `percent_all` read back as the bytes they came from:
/// the text is three characters per byte, and at each position `3 * k` a
/// well-formed escape spells byte `k`.
proof fn lemma_percent_all_shape(bytes: Seq<u8>)
    ensures
        percent_all(bytes).len() == 3 * bytes.len(),
        forall|k: int|
            0 <= k < bytes.len() ==> #[trigger] escape_spells(percent_all(bytes), bytes, k),
    decreases bytes.len(),
{
    if bytes.len() > 0 {
        lemma_percent_all_shape(bytes.drop_first());
        let whole = percent_all(bytes);
        let b = bytes.first();
        lemma_hex_char_round(b as int / 16);
        lemma_hex_char_round(b as int % 16);
        assert forall|k: int|
            0 <= k < bytes.len() implies #[trigger] escape_spells(whole, bytes, k) by {
            if k == 0 {
                assert(whole[0] == '%');
                assert(whole[1] == hex_char(b as int / 16));
                assert(whole[2] == hex_char(b as int % 16));
            } else {
                assert(escape_spells(percent_all(bytes.drop_first()), bytes.drop_first(), k - 1));
                assert(whole[3 * k] == percent_all(bytes.drop_first())[3 * (k - 1)]);
                assert(whole[3 * k + 1] == percent_all(bytes.drop_first())[3 * (k - 1) + 1]);
                assert(whole[3 * k + 2] == percent_all(bytes.drop_first())[3 * (k - 1) + 2]);
                assert(bytes.drop_first()[k - 1] == bytes[k]);
            }
        }
    }
}

/// Decoding inverts encoding: percent-decoding always reads back exactly the
/// text that percent-encoding wrote, whatever the text.
pub proof fn lemma_decode_inverts_encode(s: Seq<char>)
    ensures
        percent_decode(percent_encode(s)) == Some(s),
    decreases s.len(),
{
    broadcast use vstd::utf8::char_is_scalar;

    if s.len() == 0 {
        assert(percent_encode(s) =~= Seq::<char>::empty());
    } else {
        let c = s.first();
        let rest = s.drop_first();
        lemma_decode_inverts_encode(rest);
        let whole = percent_encode(s);
        let tail = percent_encode(rest);
        assert(whole == enc_char(c) + tail);
        if is_plain_char(c) {
            assert(whole[0] == c);
            assert(c != '%');
            assert(whole.drop_first() =~= tail);
            assert(percent_decode(whole) == Some(seq![c] + rest));
            assert(seq![c] + rest =~= s);
        } else {
            let cp = c as u32;
            let bytes = vstd::utf8::encode_scalar(cp);
            let w = bytes.len() as int;
            assert(vstd::utf8::encode_utf8(seq![c]) =~= bytes) by {
                assert(seq![c].drop_first() =~= Seq::<char>::empty());
                assert(vstd::utf8::encode_utf8(Seq::<char>::empty()) =~= Seq::<u8>::empty());
                assert(seq![c][0] == c);
                assert(vstd::utf8::encode_utf8(seq![c]) =~= bytes + Seq::<u8>::empty());
            }
            vstd::utf8::encode_utf8_first_scalar(seq![c]);
            assert(vstd::utf8::valid_first_scalar(bytes));
            assert(vstd::utf8::decode_first_scalar(bytes) == cp);
            assert(vstd::utf8::length_of_first_scalar(bytes) == w);
            lemma_percent_all_shape(bytes);
            assert(enc_char(c) == percent_all(bytes));
            assert(1 <= w <= 4);
            assert forall|k: int| 0 <= k < w implies escape_at(whole, 3 * k) && byte_at(
                whole,
                3 * k,
            ) == bytes[k] by {
                assert(escape_spells(percent_all(bytes), bytes, k));
                assert(whole[3 * k] == percent_all(bytes)[3 * k]);
                assert(whole[3 * k + 1] == percent_all(bytes)[3 * k + 1]);
                assert(whole[3 * k + 2] == percent_all(bytes)[3 * k + 2]);
                assert((hex_val(whole[3 * k + 1]) * 16 + hex_val(whole[3 * k + 2])) as u8
                    == bytes[k]);
            }
            assert(group_bytes(whole) =~= bytes) by {
                assert(byte_at(whole, 0) == bytes[0]);
                if w == 1 {
                } else if w == 2 {
                    assert(bytes[1] == byte_at(whole, 3));
                } else if w == 3 {
                    assert(bytes[1] == byte_at(whole, 3));
                    assert(bytes[2] == byte_at(whole, 6));
                } else {
                    assert(bytes[1] == byte_at(whole, 3));
                    assert(bytes[2] == byte_at(whole, 6));
                    assert(bytes[3] == byte_at(whole, 9));
                }
            }
            assert(group_ok(whole));
            assert(whole[0] == '%');
            assert(whole.skip(3 * w) =~= tail);
            vstd::utf8::char_u32_cast(c, cp);
            assert(percent_decode(whole) == Some(seq![c] + rest));
            assert(seq![c] + rest =~= s);
        }
    }
}

/// Whether the percent-encoding must escape this ASCII character.
fn reserved_char(c: char) -> (reserved: bool)
    ensures
        reserved == is_url_reserved(c),
{
    c == '!' || c == '*' || c == '\'' || c == '(' || c == ')' || c == ';' || c == ':' || c == '@'
        || c == '&' || c == '=' || c == '+' || c == '$' || c == ',' || c == '/' || c == '?'
        || c == '%' || c == '#' || c == '[' || c == ']'
}

/// A hex digit, in either case.
pub open spec fn is_hex_digit(c: char) -> bool {
    ||| ('0' <= c && c <= '9')
    ||| ('A' <= c && c <= 'F')
    ||| ('a' <= c && c <= 'f')
}

/// The value of one hex digit.
pub open spec fn hex_val(c: char) -> int {
    if '0' <= c && c <= '9' {
        c as u32 - 48
    } else if 'A' <= c && c <= 'F' {
        c as u32 - 55
    } else {
        c as u32 - 87
    }
}

/// A well-formed `%XX` escape stands at position `k` of `s`.
pub open spec fn escape_at(s: Seq<char>, k: int) -> bool {
    k + 3 <= s.len() && s[k] == '%' && is_hex_digit(s[k + 1]) && is_hex_digit(s[k + 2])
}

/// The byte spelled by the escape at position `k` of `s`.
pub open spec fn byte_at(s: Seq<char>, k: int) -> u8 {
    (hex_val(s[k + 1]) * 16 + hex_val(s[k + 2])) as u8
}

/// The bytes of the escape group starting at the front of `s`: as many
/// escapes as the first byte's UTF-8 width asks for, or nothing where the
/// escapes run out or the first byte leads no width.
pub open spec fn group_bytes(s: Seq<char>) -> Seq<u8> {
    if !escape_at(s, 0) {
        Seq::empty()
    } else {
        let b0 = byte_at(s, 0);
        if vstd::utf8::is_leading_byte_width_1(b0) {
            seq![b0]
        } else if vstd::utf8::is_leading_byte_width_2(b0) {
            if escape_at(s, 3) {
                seq![b0, byte_at(s, 3)]
            } else {
                Seq::empty()
            }
        } else if vstd::utf8::is_leading_byte_width_3(b0) {
            if escape_at(s, 3) && escape_at(s, 6) {
                seq![b0, byte_at(s, 3), byte_at(s, 6)]
            } else {
                Seq::empty()
            }
        } else if vstd::utf8::is_leading_byte_width_4(b0) {
            if escape_at(s, 3) && escape_at(s, 6) && escape_at(s, 9) {
                seq![b0, byte_at(s, 3), byte_at(s, 6), byte_at(s, 9)]
            } else {
                Seq::empty()
            }
        } else {
            Seq::empty()
        }
    }
}

/// The escape group at the front of `s` spells one whole character.
pub open spec fn group_ok(s: Seq<char>) -> bool {
    group_bytes(s).len() >= 1 && vstd::utf8::valid_first_scalar(group_bytes(s))
}

/// A whole text percent-decoded: plain characters pass through, and each
/// escape group becomes the character its bytes encode in UTF-8. Nothing
/// comes back where a `%` is not followed by a well-formed group.
pub open spec fn percent_decode(s: Seq<char>) -> Option<Seq<char>>
    decreases s.len(),
{
    if s.len() == 0 {
        Some(Seq::empty())
    } else if s[0] != '%' {
        match percent_decode(s.drop_first()) {
            None => None,
            Some(rest) => Some(seq![s[0]] + rest),
        }
    } else if group_ok(s) && 1 <= group_bytes(s).len() && 3 * group_bytes(s).len() <= s.len() {
        match percent_decode(s.skip(3 * group_bytes(s).len() as int)) {
            None => None,
            Some(rest) => Some(
                seq![vstd::utf8::decode_first_scalar(group_bytes(s)) as char] + rest,
            ),
        }
    } else {
        None
    }
}

/// The escapes of `s` seen from position `at` on are the escapes of the
/// suffix, spelling the same bytes.
proof fn lemma_escape_shift(s: Seq<char>, at: int, k: int)
    requires
        0 <= at <= s.len(),
        0 <= k,
    ensures
        escape_at(s.skip(at), k) == escape_at(s, at + k),
        escape_at(s, at + k) ==> byte_at(s.skip(at), k) == byte_at(s, at + k),
{
    if at + k + 2 < s.len() {
        assert(s.skip(at)[k] == s[at + k]);
        assert(s.skip(at)[k + 1] == s[at + k + 1]);
        assert(s.skip(at)[k + 2] == s[at + k + 2]);
    }
}

/// The value of one hex digit character, if it is one.
fn hex_digit_val(c: char) -> (value: Option<u8>)
    ensures
        value.is_some() == is_hex_digit(c),
        value matches Some(v) ==> v as int == hex_val(c),
{
    if '0' <= c && c <= '9' {
        Some(((c as u32) - 48) as u8)
    } else if 'A' <= c && c <= 'F' {
        Some(((c as u32) - 55) as u8)
    } else if 'a' <= c && c <= 'f' {
        Some(((c as u32) - 87) as u8)
    } else {
        None
    }
}

/// Reads the `%XX` escape at position `k` of `s`, if a well-formed one
/// stands there.
fn read_escape(s: &str, k: usize) -> (escape: Option<u8>)
    ensures
        escape.is_some() == escape_at(s@, k as int),
        escape matches Some(b) ==> b == byte_at(s@, k as int),
{
    let count = s.unicode_len();
    if count < 3 || k > count - 3 {
        return None;
    }
    if s.get_char(k) != '%' {
        return None;
    }
    let high = hex_digit_val(s.get_char(k + 1));
    let low = hex_digit_val(s.get_char(k + 2));
    match (high, low) {
        (Some(h), Some(l)) => Some(h * 16 + l),
        _ => None,
    }
}

/// Where the scheme ends: the first `:`, or the text's end if none occurs.
pub open spec fn scheme_cut(s: Seq<char>) -> int {
    open_run(s, set![':'])
}

/// The scheme text, before the first `:`.
pub open spec fn scheme_part(s: Seq<char>) -> Seq<char> {
    s.subrange(0, scheme_cut(s))
}

/// Everything after `://`.
pub open spec fn url_tail(s: Seq<char>) -> Seq<char> {
    s.skip(scheme_cut(s) + 3)
}

/// How far the authority reaches into the tail.
pub open spec fn auth_run(s: Seq<char>) -> int {
    open_run(url_tail(s), set!['/', '?', '#'])
}

/// The authority text.
pub open spec fn auth_text(s: Seq<char>) -> Seq<char> {
    url_tail(s).subrange(0, auth_run(s))
}

/// The tail after the authority: path, query and fragment.
pub open spec fn after_auth(s: Seq<char>) -> Seq<char> {
    url_tail(s).skip(auth_run(s))
}

/// How far the path reaches.
pub open spec fn path_run(s: Seq<char>) -> int {
    open_run(after_auth(s), set!['?', '#'])
}

/// The path text, with its leading `/` when one is there.
pub open spec fn path_text(s: Seq<char>) -> Seq<char> {
    after_auth(s).subrange(0, path_run(s))
}

/// What follows the path: a query, a fragment, or nothing.
pub open spec fn after_path(s: Seq<char>) -> Seq<char> {
    after_auth(s).skip(path_run(s))
}

/// Whether a query is given (a `?` after the path).
pub open spec fn has_query(s: Seq<char>) -> bool {
    after_path(s).len() > 0 && after_path(s)[0] == '?'
}

/// How far the query reaches after its `?`.
pub open spec fn query_run(s: Seq<char>) -> int {
    open_run(after_path(s).skip(1), set!['#'])
}

/// The query text, between `?` and `#`.
pub open spec fn query_text(s: Seq<char>) -> Seq<char> {
    after_path(s).skip(1).subrange(0, query_run(s))
}

/// What follows the query: a fragment or nothing.
pub open spec fn after_query(s: Seq<char>) -> Seq<char> {
    if has_query(s) {
        after_path(s).skip(1).skip(query_run(s))
    } else {
        after_path(s)
    }
}

/// Whether a fragment is given (a `#` stands at the end of the recognized
/// parts).
pub open spec fn has_fragment(s: Seq<char>) -> bool {
    after_query(s).len() > 0
}

/// The fragment text, after the `#`.
pub open spec fn fragment_text(s: Seq<char>) -> Seq<char> {
    after_query(s).skip(1)
}

/// `x` is `y`, or `x` is an ASCII capital whose small form is `y`.
pub open spec fn char_lower_eq(x: char, y: char) -> bool {
    x == y || ('A' <= x && x <= 'Z' && x as u32 + 32 == y as u32)
}

/// `a` reads as `b` once ASCII capitals are smalled.
pub open spec fn lower_match(a: Seq<char>, b: Seq<char>) -> bool {
    a.len() == b.len() && (forall|i: int| 0 <= i < a.len() ==> char_lower_eq(a[i], b[i]))
}

/// The scheme text names one of the four known schemes, in any case.
pub open spec fn known_scheme(t: Seq<char>) -> bool {
    ||| lower_match(t, "https"@)
    ||| lower_match(t, "http"@)
    ||| lower_match(t, "file"@)
    ||| lower_match(t, "ftp"@)
}

/// Which scheme the scheme text names.
pub open spec fn scheme_of(t: Seq<char>) -> URLScheme {
    if lower_match(t, "https"@) {
        URLScheme::HTTPS
    } else if lower_match(t, "http"@) {
        URLScheme::HTTP
    } else if lower_match(t, "file"@) {
        URLScheme::FILE
    } else {
        URLScheme::FTP
    }
}

/// The text has the `scheme://authority...` frame: a non-empty scheme, the
/// two slashes, and a non-empty authority.
pub open spec fn url_shape_ok(s: Seq<char>) -> bool {
    let c = scheme_cut(s);
    1 <= c && c + 2 < s.len() && s[c + 1] == '/' && s[c + 2] == '/' && auth_run(s) >= 1
}

/// The whole text parses as a URL.
pub open spec fn url_ok(s: Seq<char>) -> bool {
    &&& url_shape_ok(s)
    &&& known_scheme(scheme_part(s))
    &&& auth_ok(auth_text(s))
    &&& (has_query(s) ==> query_pairs(query_text(s)) is Some)
}

/// Which error an unparsable URL draws.
pub open spec fn url_fault(s: Seq<char>) -> ParseError {
    if !url_shape_ok(s) {
        ParseError::Malformed
    } else if !known_scheme(scheme_part(s)) {
        ParseError::InvalidScheme
    } else if !auth_ok(auth_text(s)) {
        auth_fault(auth_text(s))
    } else {
        ParseError::InvalidQuery
    }
}

/// Whether `s` reads as `t` once ASCII capitals in `s` are smalled.
fn eq_nocase(s: &str, t: &str) -> (alike: bool)
    ensures
        alike == lower_match(s@, t@),
{
    let s_count = s.unicode_len();
    if s_count != t.unicode_len() {
        return false;
    }
    let mut at: usize = 0;
    while at < s_count
        invariant
            0 <= at <= s_count,
            s_count == s@.len(),
            s_count == t@.len(),
            forall|j: int| 0 <= j < at ==> char_lower_eq(s@[j], t@[j]),
        decreases s_count - at,
    {
        let x = s.get_char(at);
        let y = t.get_char(at);
        let folded = x == y || ('A' <= x && x <= 'Z' && (x as u32) + 32 == (y as u32));
        if !folded {
            return false;
        }
        at = at + 1;
    }
    true
}

/// A parsed URL: scheme, authority, path, query and fragment.
#[derive(Debug)]
pub struct Url {
    scheme: URLScheme,
    authority: Authority,
    path: String,
    query: Query,
    fragment: Option<String>,
}

/// A handle for the byte stream behind an opened URL. Opening one is the
/// embedding application's business: nothing in this crate does I/O.
pub struct UrlStream {}

impl Url {
    /// The parsed scheme.
    pub closed spec fn scheme_view(&self) -> URLScheme {
        self.scheme
    }

    /// The parsed user part, if one was given.
    pub closed spec fn user_view(&self) -> Option<Seq<char>> {
        self.authority.user_view()
    }

    /// The parsed host.
    pub closed spec fn host_view(&self) -> Seq<char> {
        self.authority.host_view()
    }

    /// The parsed port, if one was given.
    pub closed spec fn port_view(&self) -> Option<u32> {
        self.authority.port_view()
    }

    /// The parsed path.
    pub closed spec fn path_view(&self) -> Seq<char> {
        self.path@
    }

    /// The parsed query pairs, in the order given.
    pub closed spec fn query_view(&self) -> Seq<(Seq<char>, Seq<char>)> {
        self.query.pairs_view()
    }

    /// The parsed fragment, if one was given.
    pub closed spec fn fragment_view(&self) -> Option<Seq<char>> {
        match self.fragment {
            Some(f) => Some(f@),
            None => None,
        }
    }

    /// Reads a URL out of `url_str`, part by part, or says what is wrong
    /// with it.
    #[verifier::rlimit(80)]
    pub fn parse(url_str: &str) -> (parsed: Result<Url, ParseError>)
        ensures
            parsed.is_ok() == url_ok(url_str@),
            parsed.is_err() ==> parsed == Err::<Url, ParseError>(url_fault(url_str@)),
            parsed matches Ok(u) ==> {
                &&& u.scheme_view() == scheme_of(scheme_part(url_str@))
                &&& u.user_view() == auth_user(auth_text(url_str@))
                &&& u.host_view() == auth_host(auth_text(url_str@))
                &&& u.port_view() == auth_port(auth_text(url_str@))
                &&& u.path_view() == path_text(url_str@)
                &&& Some(u.query_view()) == (if has_query(url_str@) {
                    query_pairs(query_text(url_str@))
                } else {
                    Some(Seq::<(Seq<char>, Seq<char>)>::empty())
                })
                &&& u.fragment_view() == (if has_fragment(url_str@) {
                    Some(fragment_text(url_str@))
                } else {
                    None::<Seq<char>>
                })
            },
    {
        let count = url_str.unicode_len();
        let cut = scan_open_run(url_str, 0, ':', ':', ':');
        proof {
            assert(set![':', ':', ':'] =~= set![':']);
            assert(url_str@.skip(0) =~= url_str@);
        }
        if cut == 0 || count - cut < 3 {
            return Err(ParseError::Malformed);
        }
        if !(url_str.get_char(cut + 1) == '/' && url_str.get_char(cut + 2) == '/') {
            return Err(ParseError::Malformed);
        }
        let tail_from = cut + 3;
        proof {
            assert(url_str@.skip(tail_from as int) =~= url_tail(url_str@));
        }
        let authority_run = scan_open_run(url_str, tail_from, '/', '?', '#');
        if authority_run == 0 {
            return Err(ParseError::Malformed);
        }
        let scheme_str = url_str.substring_char(0, cut);
        proof {
            assert(scheme_str@ == scheme_part(url_str@));
        }
        let scheme = if eq_nocase(scheme_str, "https") {
            URLScheme::HTTPS
        } else if eq_nocase(scheme_str, "http") {
            URLScheme::HTTP
        } else if eq_nocase(scheme_str, "file") {
            URLScheme::FILE
        } else if eq_nocase(scheme_str, "ftp") {
            URLScheme::FTP
        } else {
            return Err(ParseError::InvalidScheme);
        };
        let auth_str = url_str.substring_char(tail_from, tail_from + authority_run);
        proof {
            assert(auth_str@ =~= auth_text(url_str@));
        }
        let authority = match Authority::parse(auth_str) {
            Ok(authority) => authority,
            Err(fault) => {
                return Err(fault);
            },
        };
        let path_from = tail_from + authority_run;
        proof {
            assert(url_str@.skip(path_from as int) =~= after_auth(url_str@));
        }
        let path_run_len = scan_open_run(url_str, path_from, '?', '#', '#');
        proof {
            assert(set!['?', '#', '#'] =~= set!['?', '#']);
            assert(url_str@.subrange(path_from as int, path_from + path_run_len) =~= path_text(
                url_str@,
            ));
        }
        let path = url_str.substring_char(path_from, path_from + path_run_len).to_owned();
        let mut rest_from = path_from + path_run_len;
        proof {
            assert(url_str@.skip(rest_from as int) =~= after_path(url_str@));
            lemma_open_run_len(after_auth(url_str@), set!['?', '#']);
        }
        let query = if rest_from < count && url_str.get_char(rest_from) == '?' {
            proof {
                assert(url_str@.skip(rest_from as int + 1) =~= after_path(url_str@).skip(1));
            }
            let query_run_len = scan_open_run(url_str, rest_from + 1, '#', '#', '#');
            proof {
                assert(set!['#', '#', '#'] =~= set!['#']);
                assert(url_str@.subrange(rest_from as int + 1, rest_from + 1 + query_run_len)
                    =~= query_text(url_str@));
            }
            let query_str = url_str.substring_char(rest_from + 1, rest_from + 1 + query_run_len);
            let query = match Query::parse(query_str) {
                Ok(query) => query,
                Err(fault) => {
                    return Err(fault);
                },
            };
            rest_from = rest_from + 1 + query_run_len;
            proof {
                assert(url_str@.skip(rest_from as int) =~= after_query(url_str@));
                lemma_open_run_len(after_path(url_str@).skip(1), set!['#']);
            }
            query
        } else {
            proof {
                assert(url_str@.skip(rest_from as int) =~= after_query(url_str@));
            }
            Query::new()
        };
        let fragment = if rest_from < count {
            proof {
                assert(url_str@.skip(rest_from as int + 1) =~= fragment_text(url_str@));
            }
            Some(url_str.substring_char(rest_from + 1, count).to_owned())
        } else {
            None
        };
        Ok(Url { scheme, authority, path, query, fragment })
    }

    /// The parsed scheme.
    pub fn scheme(&self) -> (scheme: URLScheme)
        ensures
            scheme == self.scheme_view(),
    {
        self.scheme
    }

    /// The parsed host.
    pub fn host(&self) -> (host: &str)
        ensures
            host@ == self.host_view(),
    {
        self.authority.host.as_str()
    }

    /// The parsed user part, if one was given.
    pub fn userinfo(&self) -> (user: Option<&str>)
        ensures
            user.is_some() == self.user_view().is_some(),
            user matches Some(u) ==> Some(u@) == self.user_view(),
    {
        match &self.authority.user_info {
            Some(u) => Some(u.as_str()),
            None => None,
        }
    }

    /// The parsed path.
    pub fn path(&self) -> (path: &str)
        ensures
            path@ == self.path_view(),
    {
        self.path.as_str()
    }

    /// The parsed port, if one was given.
    pub fn port(&self) -> (port: Option<u32>)
        ensures
            port == self.port_view(),
    {
        self.authority.port
    }

    /// The parsed query pairs.
    pub fn query(&self) -> (query: &Query)
        ensures
            query.pairs_view() == self.query_view(),
    {
        &self.query
    }

    /// The parsed fragment, if one was given.
    pub fn fragment(&self) -> (fragment: Option<&str>)
        ensures
            fragment.is_some() == self.fragment_view().is_some(),
            fragment matches Some(f) ==> Some(f@) == self.fragment_view(),
    {
        match &self.fragment {
            Some(f) => Some(f.as_str()),
            None => None,
        }
    }
}

/// An authority written back as text: `user@host:port`, with the user part
/// and the port only where they were given.
pub open spec fn authority_render(user: Option<Seq<char>>, host: Seq<char>, port: Option<u32>) -> Seq<char> {
    (match user {
        Some(u) => u + "@"@,
        None => Seq::<char>::empty(),
    }) + host + (match port {
        Some(p) => ":"@ + dec_of(p as int),
        None => Seq::<char>::empty(),
    })
}

impl Authority {
    /// Writes the authority back as text.
    pub fn to_string(&self) -> (text: String)
        ensures
            text@ == authority_render(self.user_view(), self.host_view(), self.port_view()),
    {
        let mut text = String::new();
        match &self.user_info {
            Some(user) => {
                text.append(user.as_str());
                text.append("@");
            },
            None => {},
        }
        text.append(self.host.as_str());
        match self.port {
            Some(port) => {
                text.append(":");
                append_dec(port, &mut text);
            },
            None => {},
        }
        proof {
            assert(text@ =~= authority_render(
                self.user_view(),
                self.host_view(),
                self.port_view(),
            ));
        }
        text
    }
}

/// The pieces of `t` between occurrences of `sep`: one piece more than there
/// are separators, and an empty text gives one empty piece.
pub open spec fn split_on(t: Seq<char>, sep: char) -> Seq<Seq<char>>
    decreases t.len(),
{
    let cut = open_run(t, set![sep]);
    if 0 <= cut && cut < t.len() {
        seq![t.subrange(0, cut)] + split_on(t.skip(cut + 1), sep)
    } else {
        seq![t]
    }
}

impl Url {
    /// The pieces of the path between its `/`s, without the text before the
    /// first `/` (for a path `/a/b`, the pieces `a` and `b`).
    pub fn path_segments(&self) -> (segments: Vec<&str>)
        ensures
            segments@.len() + 1 == split_on(self.path_view(), '/').len(),
            forall|i: int|
                0 <= i < segments@.len() ==> segments@[i]@ == split_on(self.path_view(), '/')[i
                    + 1],
    {
        let path: &str = self.path.as_str();
        let count = path.unicode_len();
        let mut pieces: Vec<&str> = Vec::new();
        let mut from: usize = 0;
        let mut more = true;
        proof {
            assert(path@.skip(0) =~= path@);
        }
        while more
            invariant
                0 <= from <= count,
                count == path@.len(),
                path@ == self.path_view(),
                more ==> split_on(path@, '/') == pieces@.map_values(|p: &str| p@) + split_on(
                    path@.skip(from as int),
                    '/',
                ),
                !more ==> split_on(path@, '/') == pieces@.map_values(|p: &str| p@),
                !more ==> pieces@.len() > 0,
            decreases count - from + (if more {
                1int
            } else {
                0int
            }),
        {
            let ghost remain = path@.skip(from as int);
            let ghost held = pieces@.map_values(|p: &str| p@);
            let run = scan_open_run(path, from, '/', '/', '/');
            proof {
                assert(set!['/', '/', '/'] =~= set!['/']);
                lemma_open_run_len(remain, set!['/']);
                assert(path@.subrange(from as int, from + run) =~= remain.subrange(0, run as int));
            }
            let piece = path.substring_char(from, from + run);
            pieces.push(piece);
            proof {
                assert(pieces@.map_values(|p: &str| p@) =~= held.push(piece@));
            }
            if from + run < count {
                proof {
                    assert(remain.skip(run as int + 1) =~= path@.skip(from + run + 1));
                    assert(split_on(remain, '/') == seq![remain.subrange(0, run as int)]
                        + split_on(remain.skip(run as int + 1), '/'));
                    assert(held.push(piece@) + split_on(path@.skip(from + run + 1), '/')
                        =~= held + split_on(remain, '/'));
                }
                from = from + run + 1;
            } else {
                proof {
                    assert(split_on(remain, '/') == seq![remain]);
                    assert(remain =~= piece@);
                    assert(held.push(piece@) =~= held + seq![remain]);
                }
                more = false;
            }
        }
        let mut segments = pieces;
        segments.remove(0);
        segments
    }

    /// The URL written back as text, part by part; parts that were not given
    /// are left out.
    pub open spec fn rendered(&self) -> Seq<char> {
        scheme_text(self.scheme_view()) + "://"@ + authority_render(
            self.user_view(),
            self.host_view(),
            self.port_view(),
        ) + self.path_view() + (if self.query_view().len() > 0 {
            "?"@ + render_pairs(self.query_view())
        } else {
            Seq::<char>::empty()
        }) + (match self.fragment_view() {
            Some(f) => "#"@ + f,
            None => Seq::<char>::empty(),
        })
    }

    /// Writes the URL back as text.
    pub fn to_string(&self) -> (text: String)
        ensures
            text@ == self.rendered(),
    {
        let mut text = String::new();
        text.append(self.scheme.as_str());
        text.append("://");
        let authority = self.authority.to_string();
        text.append(authority.as_str());
        text.append(self.path.as_str());
        if self.query.parameters.len() > 0 {
            text.append("?");
            let query = self.query.to_string();
            text.append(query.as_str());
        }
        match &self.fragment {
            Some(f) => {
                text.append("#");
                text.append(f.as_str());
            },
            None => {},
        }
        proof {
            assert(text@ =~= self.rendered());
        }
        text
    }
}

} // verus!
