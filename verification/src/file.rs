//! Records and the files built from them: the parser for the input text
//! (a JSON array of objects with a `name` and a `processxml` member),
//! the filename sanitizer, and the exporter that turns records into
//! planned output files while folding size metrics into the statistics.

use crate::chars::{from_chars, to_chars};
use crate::error::Error;
use crate::json::{
    json_decode_spec, json_encode_spec, json_encode_string, lemma_json_round_trip,
    lemma_parse_string_bounds, parse_string, parse_string_exec,
};
use crate::statistics::Statistics;
use crate::xml::{lemma_xml_round_trip, xml_document, xml_document_spec, xml_extract_spec};
use vstd::prelude::*;

verus! {

/// A single named record loaded from the input file: the name the
/// output file is derived from, and the text payload to export.
#[derive(Clone, Debug)]
pub struct ProcessEntry {
    pub name: String,
    pub processxml: String,
}

impl View for ProcessEntry {
    type V = (Seq<char>, Seq<char>);

    open spec fn view(&self) -> (Seq<char>, Seq<char>) {
        (self.name@, self.processxml@)
    }
}

/// The records of `s` as pairs of name and content text.
pub open spec fn entries_view(s: Seq<ProcessEntry>) -> Seq<(Seq<char>, Seq<char>)> {
    s.map_values(|e: ProcessEntry| e@)
}

/// The member key naming a record.
pub open spec fn name_key() -> Seq<char> {
    seq!['n', 'a', 'm', 'e']
}

/// The member key holding a record's content.
pub open spec fn content_key() -> Seq<char> {
    seq!['p', 'r', 'o', 'c', 'e', 's', 's', 'x', 'm', 'l']
}

/// Whether `c` is JSON whitespace.
pub open spec fn is_json_ws(c: char) -> bool {
    c == ' ' || c == '\t' || c == '\n' || c == '\r'
}

/// The first position at or after `pos` holding no whitespace.
pub open spec fn skip_ws(t: Seq<char>, pos: int) -> int
    decreases t.len() - pos,
{
    if pos < t.len() && 0 <= pos && is_json_ws(t[pos]) {
        skip_ws(t, pos + 1)
    } else {
        pos
    }
}

/// Skipping whitespace stays inside the text.
pub proof fn lemma_skip_ws_bounds(t: Seq<char>, pos: int)
    requires
        pos <= t.len(),
    ensures
        pos <= skip_ws(t, pos) <= t.len(),
    decreases t.len() - pos,
{
    if pos < t.len() && 0 <= pos && is_json_ws(t[pos]) {
        lemma_skip_ws_bounds(t, pos + 1);
    }
}

/// Parse one `"key": "value"` member at `pos`; yields the key, the
/// value, and the position after the value.
pub open spec fn parse_member(t: Seq<char>, pos: int) -> Option<((Seq<char>, Seq<char>), int)> {
    match parse_string(t, pos) {
        Some(kp) => {
            let p2 = skip_ws(t, kp.1);
            if p2 < t.len() && t[p2] == ':' {
                let p3 = skip_ws(t, p2 + 1);
                match parse_string(t, p3) {
                    Some(vp) => Some(((kp.0, vp.0), vp.1)),
                    None => None,
                }
            } else {
                None
            }
        },
        None => None,
    }
}

/// A parsed member always makes progress and stays inside the text.
pub proof fn lemma_parse_member_bounds(t: Seq<char>, pos: int)
    ensures
        parse_member(t, pos) matches Some(p) ==> pos < p.1 <= t.len(),
{
    lemma_parse_string_bounds(t, pos);
    if parse_string(t, pos) is Some {
        let kp = parse_string(t, pos).unwrap();
        lemma_skip_ws_bounds(t, kp.1);
        let p2 = skip_ws(t, kp.1);
        if p2 < t.len() && t[p2] == ':' {
            lemma_skip_ws_bounds(t, p2 + 1);
            let p3 = skip_ws(t, p2 + 1);
            lemma_parse_string_bounds(t, p3);
        }
    }
}

/// Parse the members of a record object from the first member through
/// the closing brace, carrying the `name` and `processxml` values seen
/// so far. Every member is a string-valued `"key": "value"` pair; the
/// two required keys must each appear exactly once, and members under
/// any other key are read and skipped.
pub open spec fn parse_members(
    t: Seq<char>,
    pos: int,
    name_val: Option<Seq<char>>,
    content_val: Option<Seq<char>>,
) -> Option<((Seq<char>, Seq<char>), int)>
    decreases t.len() - pos,
    via parse_members_decreases
{
    match parse_member(t, pos) {
        Some(mp) => {
            if (mp.0.0 == name_key() && name_val is Some) || (mp.0.0 == content_key()
                && content_val is Some) {
                None
            } else {
                let name2 = if mp.0.0 == name_key() {
                    Some(mp.0.1)
                } else {
                    name_val
                };
                let content2 = if mp.0.0 == content_key() {
                    Some(mp.0.1)
                } else {
                    content_val
                };
                let p2 = skip_ws(t, mp.1);
                if p2 < t.len() && t[p2] == ',' {
                    let p3 = skip_ws(t, p2 + 1);
                    parse_members(t, p3, name2, content2)
                } else if p2 < t.len() && t[p2] == '}' {
                    match (name2, content2) {
                        (Some(n), Some(c)) => Some(((n, c), p2 + 1)),
                        _ => None,
                    }
                } else {
                    None
                }
            }
        },
        None => None,
    }
}

#[via_fn]
proof fn parse_members_decreases(
    t: Seq<char>,
    pos: int,
    name_val: Option<Seq<char>>,
    content_val: Option<Seq<char>>,
) {
    lemma_parse_member_bounds(t, pos);
    if parse_member(t, pos) is Some {
        let mp = parse_member(t, pos).unwrap();
        lemma_skip_ws_bounds(t, mp.1);
        let p2 = skip_ws(t, mp.1);
        if p2 < t.len() && t[p2] == ',' {
            lemma_skip_ws_bounds(t, p2 + 1);
        }
    }
}

/// Parsed members always make progress and stay inside the text.
pub proof fn lemma_parse_members_bounds(
    t: Seq<char>,
    pos: int,
    name_val: Option<Seq<char>>,
    content_val: Option<Seq<char>>,
)
    ensures
        parse_members(t, pos, name_val, content_val) matches Some(p) ==> pos < p.1 <= t.len(),
    decreases t.len() - pos,
{
    lemma_parse_member_bounds(t, pos);
    if parse_member(t, pos) is Some {
        let mp = parse_member(t, pos).unwrap();
        if (mp.0.0 == name_key() && name_val is Some) || (mp.0.0 == content_key()
            && content_val is Some) {
        } else {
            let name2 = if mp.0.0 == name_key() {
                Some(mp.0.1)
            } else {
                name_val
            };
            let content2 = if mp.0.0 == content_key() {
                Some(mp.0.1)
            } else {
                content_val
            };
            lemma_skip_ws_bounds(t, mp.1);
            let p2 = skip_ws(t, mp.1);
            if p2 < t.len() && t[p2] == ',' {
                lemma_skip_ws_bounds(t, p2 + 1);
                let p3 = skip_ws(t, p2 + 1);
                lemma_parse_members_bounds(t, p3, name2, content2);
            }
        }
    }
}

/// Parse one record object at `pos`: braces around string-valued
/// members, with a `name` member and a `processxml` member each
/// appearing exactly once, in any order and position; members under
/// any other key are skipped. Yields the name text, the content text,
/// and the position after the closing brace.
pub open spec fn parse_object(t: Seq<char>, pos: int) -> Option<((Seq<char>, Seq<char>), int)> {
    if pos < t.len() && 0 <= pos && t[pos] == '{' {
        let p1 = skip_ws(t, pos + 1);
        parse_members(t, p1, None, None)
    } else {
        None
    }
}

/// A parsed object always makes progress and stays inside the text.
pub proof fn lemma_parse_object_bounds(t: Seq<char>, pos: int)
    ensures
        parse_object(t, pos) matches Some(p) ==> pos < p.1 <= t.len(),
{
    if pos < t.len() && 0 <= pos && t[pos] == '{' {
        lemma_skip_ws_bounds(t, pos + 1);
        lemma_parse_members_bounds(t, skip_ws(t, pos + 1), None, None);
    }
}

/// Parse the elements of a non-empty array from the start of its first
/// object through the closing bracket; yields the records and the
/// position after the bracket.
pub open spec fn parse_elems(t: Seq<char>, pos: int) -> Option<(Seq<(Seq<char>, Seq<char>)>, int)>
    decreases t.len() - pos,
    via parse_elems_decreases
{
    match parse_object(t, pos) {
        Some(ep) => {
            let p2 = skip_ws(t, ep.1);
            if p2 < t.len() && t[p2] == ',' {
                let p3 = skip_ws(t, p2 + 1);
                match parse_elems(t, p3) {
                    Some(rp) => Some((seq![ep.0] + rp.0, rp.1)),
                    None => None,
                }
            } else if p2 < t.len() && t[p2] == ']' {
                Some((seq![ep.0], p2 + 1))
            } else {
                None
            }
        },
        None => None,
    }
}

#[via_fn]
proof fn parse_elems_decreases(t: Seq<char>, pos: int) {
    lemma_parse_object_bounds(t, pos);
    if parse_object(t, pos) is Some {
        let ep = parse_object(t, pos).unwrap();
        lemma_skip_ws_bounds(t, ep.1);
        let p2 = skip_ws(t, ep.1);
        if p2 < t.len() && t[p2] == ',' {
            lemma_skip_ws_bounds(t, p2 + 1);
        }
    }
}

/// Parse the whole input text: a JSON array of record objects with
/// whitespace around the tokens and nothing after the closing bracket.
pub open spec fn parse_records_spec(t: Seq<char>) -> Option<Seq<(Seq<char>, Seq<char>)>> {
    let p0 = skip_ws(t, 0);
    if p0 < t.len() && t[p0] == '[' {
        let p1 = skip_ws(t, p0 + 1);
        if p1 < t.len() && t[p1] == ']' {
            if skip_ws(t, p1 + 1) == t.len() {
                Some(Seq::<(Seq<char>, Seq<char>)>::empty())
            } else {
                None
            }
        } else {
            match parse_elems(t, p1) {
                Some(rp) => {
                    if skip_ws(t, rp.1) == t.len() {
                        Some(rp.0)
                    } else {
                        None
                    }
                },
                None => None,
            }
        }
    } else {
        None
    }
}

fn skip_ws_exec(cs: &Vec<char>, pos: usize) -> (r: usize)
    requires
        pos <= cs@.len(),
    ensures
        r == skip_ws(cs@, pos as int),
        pos <= r <= cs@.len(),
{
    let n = cs.len();
    let mut j: usize = pos;
    while j < n && (cs[j] == ' ' || cs[j] == '\t' || cs[j] == '\n' || cs[j] == '\r')
        invariant
            n == cs@.len(),
            pos <= j <= n,
            skip_ws(cs@, pos as int) == skip_ws(cs@, j as int),
        decreases n - j,
    {
        j += 1;
    }
    j
}

fn parse_member_exec(cs: &Vec<char>, pos: usize) -> (r: Option<((Vec<char>, Vec<char>), usize)>)
    requires
        pos <= cs@.len(),
    ensures
        match r {
            Some(p) => parse_member(cs@, pos as int) == Some((((p.0.0@, p.0.1@)), p.1 as int))
                && pos < p.1 <= cs@.len(),
            None => parse_member(cs@, pos as int) is None,
        },
{
    let n = cs.len();
    match parse_string_exec(cs, pos) {
        Some(kp) => {
            let p2 = skip_ws_exec(cs, kp.1);
            if p2 < n && cs[p2] == ':' {
                let p3 = skip_ws_exec(cs, p2 + 1);
                match parse_string_exec(cs, p3) {
                    Some(vp) => Some(((kp.0, vp.0), vp.1)),
                    None => None,
                }
            } else {
                None
            }
        },
        None => None,
    }
}

/// Whether the characters of `v` spell the `name` key.
fn is_name_key(v: &Vec<char>) -> (r: bool)
    ensures
        r == (v@ == name_key()),
{
    let r = v.len() == 4 && v[0] == 'n' && v[1] == 'a' && v[2] == 'm' && v[3] == 'e';
    proof {
        if r {
            assert(v@ =~= name_key());
        }
    }
    r
}

/// Whether the characters of `v` spell the `processxml` key.
fn is_content_key(v: &Vec<char>) -> (r: bool)
    ensures
        r == (v@ == content_key()),
{
    let r = v.len() == 10 && v[0] == 'p' && v[1] == 'r' && v[2] == 'o' && v[3] == 'c' && v[4] == 'e'
        && v[5] == 's' && v[6] == 's' && v[7] == 'x' && v[8] == 'm' && v[9] == 'l';
    proof {
        if r {
            assert(v@ =~= content_key());
        }
    }
    r
}

/// The text of an optionally held character vector.
pub open spec fn opt_text(o: Option<Vec<char>>) -> Option<Seq<char>> {
    match o {
        Some(v) => Some(v@),
        None => None,
    }
}

fn parse_members_exec(
    cs: &Vec<char>,
    pos: usize,
    name_val: Option<Vec<char>>,
    content_val: Option<Vec<char>>,
) -> (r: Option<(ProcessEntry, usize)>)
    requires
        pos <= cs@.len(),
    ensures
        match r {
            Some(p) => parse_members(cs@, pos as int, opt_text(name_val), opt_text(content_val))
                == Some((p.0@, p.1 as int)) && pos < p.1 <= cs@.len(),
            None => parse_members(
                cs@,
                pos as int,
                opt_text(name_val),
                opt_text(content_val),
            ) is None,
        },
    decreases cs@.len() - pos,
{
    let ghost nv0 = opt_text(name_val);
    let ghost cv0 = opt_text(content_val);
    let n = cs.len();
    let mp = match parse_member_exec(cs, pos) {
        Some(m) => m,
        None => {
            return None;
        },
    };
    let ((key, val), e1) = mp;
    let ghost ks = key@;
    let ghost vs = val@;
    let key_is_name = is_name_key(&key);
    let key_is_content = is_content_key(&key);
    if key_is_name && name_val.is_some() {
        return None;
    }
    if key_is_content && content_val.is_some() {
        return None;
    }
    let mut name2 = name_val;
    let mut content2 = content_val;
    if key_is_name {
        name2 = Some(val);
    } else if key_is_content {
        content2 = Some(val);
    }
    proof {
        assert(opt_text(name2) == (if ks == name_key() {
            Some(vs)
        } else {
            nv0
        }));
        assert(opt_text(content2) == (if ks == content_key() {
            Some(vs)
        } else {
            cv0
        }));
    }
    let p2 = skip_ws_exec(cs, e1);
    if p2 < n && cs[p2] == ',' {
        let p3 = skip_ws_exec(cs, p2 + 1);
        parse_members_exec(cs, p3, name2, content2)
    } else if p2 < n && cs[p2] == '}' {
        match (name2, content2) {
            (Some(nv), Some(cv)) => Some(
                (ProcessEntry { name: from_chars(&nv), processxml: from_chars(&cv) }, p2 + 1),
            ),
            _ => None,
        }
    } else {
        None
    }
}

fn parse_object_exec(cs: &Vec<char>, pos: usize) -> (r: Option<(ProcessEntry, usize)>)
    requires
        pos <= cs@.len(),
    ensures
        match r {
            Some(p) => parse_object(cs@, pos as int) == Some((p.0@, p.1 as int)) && pos < p.1
                <= cs@.len(),
            None => parse_object(cs@, pos as int) is None,
        },
{
    let n = cs.len();
    if !(pos < n && cs[pos] == '{') {
        return None;
    }
    let p1 = skip_ws_exec(cs, pos + 1);
    parse_members_exec(cs, p1, None, None)
}

fn parse_elems_exec(cs: &Vec<char>, pos: usize) -> (r: Option<(Vec<ProcessEntry>, usize)>)
    requires
        pos <= cs@.len(),
    ensures
        match r {
            Some(p) => parse_elems(cs@, pos as int) == Some((entries_view(p.0@), p.1 as int))
                && pos < p.1 <= cs@.len(),
            None => parse_elems(cs@, pos as int) is None,
        },
    decreases cs@.len() - pos,
{
    let n = cs.len();
    let ep = match parse_object_exec(cs, pos) {
        Some(e) => e,
        None => {
            return None;
        },
    };
    let p2 = skip_ws_exec(cs, ep.1);
    if p2 < n && cs[p2] == ',' {
        let p3 = skip_ws_exec(cs, p2 + 1);
        match parse_elems_exec(cs, p3) {
            Some(rp) => {
                let (mut rest, end) = rp;
                let ghost tail = rest@;
                rest.insert(0, ep.0);
                proof {
                    assert(entries_view(rest@) =~= seq![ep.0@] + entries_view(tail));
                }
                Some((rest, end))
            },
            None => None,
        }
    } else if p2 < n && cs[p2] == ']' {
        let mut one: Vec<ProcessEntry> = Vec::new();
        one.push(ep.0);
        proof {
            assert(entries_view(one@) =~= seq![ep.0@]);
        }
        Some((one, p2 + 1))
    } else {
        None
    }
}

/// Parse the full input text as a JSON array of records. Returns the
/// records in order, or a parse error exactly when the spec-level
/// grammar rejects the text.
pub fn parse_records(raw: &str) -> (r: Result<Vec<ProcessEntry>, Error>)
    ensures
        match r {
            Ok(v) => parse_records_spec(raw@) == Some(entries_view(v@)),
            Err(e) => parse_records_spec(raw@) is None && e matches Error::Parse(_),
        },
{
    let cs = to_chars(raw);
    let n = cs.len();
    let p0 = skip_ws_exec(&cs, 0);
    if !(p0 < n && cs[p0] == '[') {
        return Err(Error::Parse(String::from_str("expected a JSON array")));
    }
    let p1 = skip_ws_exec(&cs, p0 + 1);
    if p1 < n && cs[p1] == ']' {
        if skip_ws_exec(&cs, p1 + 1) == n {
            let empty: Vec<ProcessEntry> = Vec::new();
            proof {
                assert(entries_view(empty@) =~= Seq::<(Seq<char>, Seq<char>)>::empty());
            }
            return Ok(empty);
        } else {
            return Err(Error::Parse(String::from_str("text after the closing bracket")));
        }
    }
    match parse_elems_exec(&cs, p1) {
        Some(rp) => {
            if skip_ws_exec(&cs, rp.1) == n {
                Ok(rp.0)
            } else {
                Err(Error::Parse(String::from_str("text after the closing bracket")))
            }
        },
        None => Err(Error::Parse(String::from_str("malformed record array"))),
    }
}

/// Whether whitespace, then one record object, then whitespace fills
/// the whole text.
pub open spec fn parse_entry_spec(t: Seq<char>) -> Option<(Seq<char>, Seq<char>)> {
    let p0 = skip_ws(t, 0);
    match parse_object(t, p0) {
        Some(ep) => {
            if skip_ws(t, ep.1) == t.len() {
                Some(ep.0)
            } else {
                None
            }
        },
        None => None,
    }
}

impl ProcessEntry {
    /// Parse one record object standing alone in `raw`; a parse error
    /// exactly when the spec-level grammar rejects the text.
    pub fn parse(raw: &str) -> (r: Result<ProcessEntry, Error>)
        ensures
            match r {
                Ok(e) => parse_entry_spec(raw@) == Some(e@),
                Err(e) => parse_entry_spec(raw@) is None && e matches Error::Parse(_),
            },
    {
        let cs = to_chars(raw);
        let p0 = skip_ws_exec(&cs, 0);
        match parse_object_exec(&cs, p0) {
            Some(ep) => {
                if skip_ws_exec(&cs, ep.1) == cs.len() {
                    Ok(ep.0)
                } else {
                    Err(Error::Parse(String::from_str("text after the record")))
                }
            },
            None => Err(Error::Parse(String::from_str("malformed record"))),
        }
    }
}

/// Every path separator in `s` replaced by an underscore.
pub open spec fn sanitize(s: Seq<char>) -> Seq<char> {
    s.map_values(
        |c: char|
            if c == '/' {
                '_'
            } else {
                c
            },
    )
}

/// The output filename for a record: the name with the extension
/// appended, then sanitized.
pub open spec fn with_extension_spec(name: Seq<char>, ext: Seq<char>) -> Seq<char> {
    sanitize(name + ext)
}

/// A derived filename never contains a path separator, whatever the
/// name and the extension hold. (Deriving twice is not the identity —
/// the extension is appended again — so this single-application
/// guarantee is the whole sanitization contract.)
pub proof fn lemma_with_extension_no_slash(name: Seq<char>, ext: Seq<char>)
    ensures
        forall|i: int|
            0 <= i < with_extension_spec(name, ext).len() ==> with_extension_spec(name, ext)[i]
                != '/',
{
    assert forall|i: int| 0 <= i < with_extension_spec(name, ext).len() implies with_extension_spec(
        name,
        ext,
    )[i] != '/' by {
        assert(with_extension_spec(name, ext)[i] == if (name + ext)[i] == '/' {
            '_'
        } else {
            (name + ext)[i]
        });
    }
}

/// `s` with every literal backslash character removed.
pub open spec fn strip_backslashes_spec(s: Seq<char>) -> Seq<char>
    decreases s.len(),
{
    if s.len() == 0 {
        Seq::<char>::empty()
    } else if s[0] == '\\' {
        strip_backslashes_spec(s.drop_first())
    } else {
        seq![s[0]] + strip_backslashes_spec(s.drop_first())
    }
}

/// Stripping distributes over appending one character.
proof fn lemma_strip_backslashes_push(s: Seq<char>, c: char)
    ensures
        strip_backslashes_spec(s.push(c)) == strip_backslashes_spec(s) + (if c == '\\' {
            Seq::<char>::empty()
        } else {
            seq![c]
        }),
    decreases s.len(),
{
    let unit = if c == '\\' {
        Seq::<char>::empty()
    } else {
        seq![c]
    };
    if s.len() == 0 {
        let t = s.push(c);
        assert(t.len() == 1 && t[0] == c);
        assert(t.drop_first() =~= Seq::<char>::empty());
        assert(strip_backslashes_spec(Seq::<char>::empty()) == Seq::<char>::empty());
        if c == '\\' {
            assert(strip_backslashes_spec(t) == strip_backslashes_spec(t.drop_first()));
        } else {
            assert(strip_backslashes_spec(t) == seq![c] + strip_backslashes_spec(t.drop_first()));
            assert(seq![c] + Seq::<char>::empty() =~= seq![c]);
        }
        assert(strip_backslashes_spec(s) + unit =~= unit);
    } else {
        assert(s.push(c)[0] == s[0]);
        assert(s.push(c).drop_first() =~= s.drop_first().push(c));
        lemma_strip_backslashes_push(s.drop_first(), c);
        if s[0] != '\\' {
            assert(seq![s[0]] + (strip_backslashes_spec(s.drop_first()) + unit) =~= (seq![s[0]]
                + strip_backslashes_spec(s.drop_first())) + unit);
        }
    }
}

/// Remove every literal backslash from `s`: the ad-hoc unescaping step
/// some deployments apply to the raw input text before parsing it.
/// Deliberately, each backslash is removed on its own; a variant that
/// removes only adjacent pairs would leave a lone backslash standing,
/// which this step is meant to clear away entirely.
pub fn strip_backslashes(s: &str) -> (r: String)
    ensures
        r@ == strip_backslashes_spec(s@),
{
    let cs = to_chars(s);
    let mut out: Vec<char> = Vec::new();
    let mut i: usize = 0;
    while i < cs.len()
        invariant
            cs@ == s@,
            i <= cs@.len(),
            out@ == strip_backslashes_spec(cs@.take(i as int)),
        decreases cs@.len() - i,
    {
        let c = cs[i];
        if c != '\\' {
            out.push(c);
        }
        proof {
            assert(cs@.take(i + 1) =~= cs@.take(i as int).push(cs@[i as int]));
            lemma_strip_backslashes_push(cs@.take(i as int), cs@[i as int]);
            if c != '\\' {
                assert(out@ =~= strip_backslashes_spec(cs@.take(i as int)) + seq![c]);
            } else {
                assert(out@ =~= strip_backslashes_spec(cs@.take(i as int))
                    + Seq::<char>::empty());
            }
        }
        i += 1;
    }
    proof {
        assert(cs@.take(cs@.len() as int) =~= s@);
    }
    from_chars(&out)
}

/// The sum of the weight `w` over the records.
pub open spec fn sum_weight(
    rs: Seq<(Seq<char>, Seq<char>)>,
    w: spec_fn((Seq<char>, Seq<char>)) -> int,
) -> int
    decreases rs.len(),
{
    if rs.len() == 0 {
        0
    } else {
        sum_weight(rs.drop_last(), w) + w(rs.last())
    }
}

/// The weight counting a record's content characters.
pub open spec fn char_weight() -> spec_fn((Seq<char>, Seq<char>)) -> int {
    |r: (Seq<char>, Seq<char>)| r.1.len() as int
}

/// The weight counting a record's content bytes, UTF-8 encoded.
pub open spec fn byte_weight() -> spec_fn((Seq<char>, Seq<char>)) -> int {
    |r: (Seq<char>, Seq<char>)| vstd::utf8::encode_utf8(r.1).len() as int
}

/// The total character count of the records' contents.
pub open spec fn sum_chars(rs: Seq<(Seq<char>, Seq<char>)>) -> int {
    sum_weight(rs, char_weight())
}

/// The total UTF-8 byte length of the records' contents.
pub open spec fn sum_bytes(rs: Seq<(Seq<char>, Seq<char>)>) -> int {
    sum_weight(rs, byte_weight())
}

/// Extending a prefix by one record adds that record's weight.
pub proof fn lemma_sum_weight_take_succ(
    rs: Seq<(Seq<char>, Seq<char>)>,
    w: spec_fn((Seq<char>, Seq<char>)) -> int,
    i: int,
)
    requires
        0 <= i < rs.len(),
    ensures
        sum_weight(rs.take(i + 1), w) == sum_weight(rs.take(i), w) + w(rs[i]),
{
    assert(rs.take(i + 1).drop_last() =~= rs.take(i));
    assert(rs.take(i + 1).last() == rs[i]);
}

/// With nonnegative weights, a prefix sum never exceeds the whole sum.
pub proof fn lemma_sum_weight_prefix(
    rs: Seq<(Seq<char>, Seq<char>)>,
    w: spec_fn((Seq<char>, Seq<char>)) -> int,
    i: int,
)
    requires
        0 <= i <= rs.len(),
        forall|r: (Seq<char>, Seq<char>)| #[trigger] w(r) >= 0,
    ensures
        sum_weight(rs.take(i), w) <= sum_weight(rs, w),
    decreases rs.len() - i,
{
    if i == rs.len() {
        assert(rs.take(i) =~= rs);
    } else {
        lemma_sum_weight_take_succ(rs, w, i);
        lemma_sum_weight_prefix(rs, w, i + 1);
    }
}

/// An XML-mode output file leads back to the record content it was
/// rendered from: extracting the root element's text recovers the
/// JSON-encoded content, and reading that text as a JSON string
/// recovers the content itself.
pub proof fn lemma_xml_mode_round_trip(content: Seq<char>)
    ensures
        xml_extract_spec(xml_document_spec(json_encode_spec(content))) == Some(
            json_encode_spec(content),
        ),
        json_decode_spec(json_encode_spec(content)) == Some(content),
{
    lemma_xml_round_trip(json_encode_spec(content));
    lemma_json_round_trip(content);
}

/// Removing the record at `j` removes exactly its weight from the sum.
proof fn lemma_sum_weight_remove(
    rs: Seq<(Seq<char>, Seq<char>)>,
    w: spec_fn((Seq<char>, Seq<char>)) -> int,
    j: int,
)
    requires
        0 <= j < rs.len(),
    ensures
        sum_weight(rs, w) == sum_weight(rs.remove(j), w) + w(rs[j]),
    decreases rs.len(),
{
    if j == rs.len() - 1 {
        assert(rs.remove(j) =~= rs.drop_last());
    } else {
        assert(rs.remove(j).drop_last() =~= rs.drop_last().remove(j));
        assert(rs.remove(j).last() == rs.last());
        lemma_sum_weight_remove(rs.drop_last(), w, j);
    }
}

/// A weight sum does not depend on the order of the records: two
/// sequences holding the same records, as a multiset, sum to the same
/// value.
pub proof fn lemma_sum_weight_permutation(
    a: Seq<(Seq<char>, Seq<char>)>,
    b: Seq<(Seq<char>, Seq<char>)>,
    w: spec_fn((Seq<char>, Seq<char>)) -> int,
)
    requires
        a.to_multiset() == b.to_multiset(),
    ensures
        sum_weight(a, w) == sum_weight(b, w),
    decreases a.len(),
{
    broadcast use vstd::seq_lib::group_to_multiset_ensures;

    if a.len() == 0 {
        assert(b.len() == b.to_multiset().len());
    } else {
        let x = a.last();
        let i = a.len() - 1;
        assert(a.contains(x));
        assert(b.to_multiset().count(x) > 0);
        assert(b.contains(x));
        let j = choose|j: int| 0 <= j < b.len() && b[j] == x;
        assert(a.remove(i).to_multiset() =~= a.to_multiset().remove(x));
        assert(b.remove(j).to_multiset() =~= b.to_multiset().remove(x));
        lemma_sum_weight_permutation(a.remove(i), b.remove(j), w);
        lemma_sum_weight_remove(a, w, i);
        lemma_sum_weight_remove(b, w, j);
    }
}

/// The exporter's totals are sums over the record contents alone, so a
/// reordering of the records leaves both reported totals unchanged.
pub proof fn lemma_totals_order_independent(
    a: Seq<(Seq<char>, Seq<char>)>,
    b: Seq<(Seq<char>, Seq<char>)>,
)
    requires
        a.to_multiset() == b.to_multiset(),
    ensures
        sum_chars(a) == sum_chars(b),
        sum_bytes(a) == sum_bytes(b),
{
    lemma_sum_weight_permutation(a, b, char_weight());
    lemma_sum_weight_permutation(a, b, byte_weight());
}

/// One planned output file: the filename to create under the output
/// directory and the full text to write into it.
pub struct OutputFile {
    pub filename: String,
    pub contents: String,
}

/// The records read from one input file, and where they came from.
#[derive(Clone, Debug)]
pub struct JsonFile {
    pub location: String,
    pub content: Vec<ProcessEntry>,
}

impl JsonFile {
    /// An empty store referencing the input file at `location`.
    pub fn new(location: String) -> (r: Result<JsonFile, Error>)
        ensures
            r matches Ok(f) && f.location == location && f.content@.len() == 0,
    {
        Ok(JsonFile { location, content: Vec::new() })
    }

    /// Parse `raw`, the full text of the input file, into a store with
    /// the records it holds; a parse error exactly when the text is not
    /// an array of records.
    pub fn set_content(&self, raw: &str) -> (r: Result<JsonFile, Error>)
        ensures
            match r {
                Ok(f) => f.location@ == self.location@ && parse_records_spec(raw@) == Some(
                    entries_view(f.content@),
                ),
                Err(e) => parse_records_spec(raw@) is None && e matches Error::Parse(_),
            },
    {
        match parse_records(raw) {
            Ok(content) => Ok(JsonFile { location: self.location.clone(), content }),
            Err(e) => Err(e),
        }
    }

    /// The output filename for a record name: the extension appended,
    /// then every '/' replaced by '_' so the file cannot leave the
    /// output directory.
    pub fn with_extension(file_name: &str, extension: &str) -> (r: String)
        ensures
            r@ == with_extension_spec(file_name@, extension@),
    {
        let mut cs = to_chars(file_name);
        let mut ext = to_chars(extension);
        cs.append(&mut ext);
        let ghost full = file_name@ + extension@;
        let mut out: Vec<char> = Vec::new();
        let mut i: usize = 0;
        while i < cs.len()
            invariant
                cs@ == full,
                i <= full.len(),
                out@ == sanitize(full.take(i as int)),
            decreases full.len() - i,
        {
            let c = cs[i];
            if c == '/' {
                out.push('_');
            } else {
                out.push(c);
            }
            proof {
                assert(out@ =~= sanitize(full.take(i + 1)));
            }
            i += 1;
        }
        proof {
            assert(full.take(full.len() as int) =~= full);
        }
        from_chars(&out)
    }

    /// Plan the export of every record in XML mode: one file per
    /// record holding the JSON-encoded content wrapped in the XML
    /// envelope, and the statistics folded over all records.
    pub fn write_as_xml(&self, output_dir: &str, extension: &str) -> (r: (
        Vec<OutputFile>,
        Statistics,
    ))
        requires
            sum_chars(entries_view(self.content@)) <= usize::MAX,
            sum_bytes(entries_view(self.content@)) <= usize::MAX,
        ensures
            r.0@.len() == self.content@.len(),
            forall|k: int|
                0 <= k < r.0@.len() ==> (#[trigger] r.0@[k]).filename@ == with_extension_spec(
                    self.content@[k].name@,
                    extension@,
                ) && r.0@[k].contents@ == xml_document_spec(
                    json_encode_spec(self.content@[k].processxml@),
                ),
            r.1.char_count == sum_chars(entries_view(self.content@)),
            r.1.array_length == sum_bytes(entries_view(self.content@)),
            r.1.output_dir@ == if self.content@.len() > 0 {
                output_dir@
            } else {
                Seq::<char>::empty()
            },
            r.1.output_filename@ == if self.content@.len() > 0 {
                with_extension_spec(self.content@[self.content@.len() - 1].name@, extension@)
            } else {
                Seq::<char>::empty()
            },
    {
        let mut stats = Statistics::default();
        let mut files: Vec<OutputFile> = Vec::new();
        let ghost rsv = entries_view(self.content@);
        proof {
            assert(rsv.take(0) =~= Seq::<(Seq<char>, Seq<char>)>::empty());
            assert forall|r: (Seq<char>, Seq<char>)| #[trigger] char_weight()(r) >= 0 by {}
            assert forall|r: (Seq<char>, Seq<char>)| #[trigger] byte_weight()(r) >= 0 by {}
        }
        let mut i: usize = 0;
        while i < self.content.len()
            invariant
                rsv == entries_view(self.content@),
                rsv.len() == self.content@.len(),
                sum_chars(rsv) <= usize::MAX,
                sum_bytes(rsv) <= usize::MAX,
                i <= rsv.len(),
                files@.len() == i,
                forall|k: int|
                    0 <= k < i ==> (#[trigger] files@[k]).filename@ == with_extension_spec(
                        self.content@[k].name@,
                        extension@,
                    ) && files@[k].contents@ == xml_document_spec(
                        json_encode_spec(self.content@[k].processxml@),
                    ),
                stats.char_count == sum_weight(rsv.take(i as int), char_weight()),
                stats.array_length == sum_weight(rsv.take(i as int), byte_weight()),
                stats.output_dir@ == if i > 0 {
                    output_dir@
                } else {
                    Seq::<char>::empty()
                },
                stats.output_filename@ == if i > 0 {
                    with_extension_spec(self.content@[i - 1].name@, extension@)
                } else {
                    Seq::<char>::empty()
                },
            decreases rsv.len() - i,
        {
            let entry = &self.content[i];
            let file_name = Self::with_extension(entry.name.as_str(), extension);
            let entry_contents = entry.processxml.clone();
            let encoded = json_encode_string(entry_contents.as_str());
            let rendered = xml_document(encoded.as_str());
            let cc = entry_contents.as_str().unicode_len();
            let bl = entry_contents.as_str().as_bytes().len();
            proof {
                broadcast use vstd::slice::axiom_spec_len;
            }
            proof {
                assert forall|r: (Seq<char>, Seq<char>)| #[trigger] char_weight()(r) >= 0 by {}
                assert forall|r: (Seq<char>, Seq<char>)| #[trigger] byte_weight()(r) >= 0 by {}
                assert(rsv[i as int] == (entry.name@, entry.processxml@));
                assert(char_weight()(rsv[i as int]) == cc as int);
                assert(byte_weight()(rsv[i as int]) == bl as int);
                lemma_sum_weight_take_succ(rsv, char_weight(), i as int);
                lemma_sum_weight_take_succ(rsv, byte_weight(), i as int);
                lemma_sum_weight_prefix(rsv, char_weight(), i + 1);
                lemma_sum_weight_prefix(rsv, byte_weight(), i + 1);
            }
            stats.wrap_input(cc, bl, String::from_str(output_dir), file_name.clone());
            files.push(OutputFile { filename: file_name, contents: rendered });
            i += 1;
        }
        proof {
            assert(rsv.take(rsv.len() as int) =~= rsv);
        }
        (files, stats)
    }

    /// Plan the export of every record in Plain mode: one file per
    /// record holding the JSON-encoded content, and the statistics
    /// folded over all records.
    pub fn write_as_plain(&self, output_dir: &str, extension: &str) -> (r: (
        Vec<OutputFile>,
        Statistics,
    ))
        requires
            sum_chars(entries_view(self.content@)) <= usize::MAX,
            sum_bytes(entries_view(self.content@)) <= usize::MAX,
        ensures
            r.0@.len() == self.content@.len(),
            forall|k: int|
                0 <= k < r.0@.len() ==> (#[trigger] r.0@[k]).filename@ == with_extension_spec(
                    self.content@[k].name@,
                    extension@,
                ) && r.0@[k].contents@ == json_encode_spec(self.content@[k].processxml@),
            r.1.char_count == sum_chars(entries_view(self.content@)),
            r.1.array_length == sum_bytes(entries_view(self.content@)),
            r.1.output_dir@ == if self.content@.len() > 0 {
                output_dir@
            } else {
                Seq::<char>::empty()
            },
            r.1.output_filename@ == if self.content@.len() > 0 {
                with_extension_spec(self.content@[self.content@.len() - 1].name@, extension@)
            } else {
                Seq::<char>::empty()
            },
    {
        let mut stats = Statistics::default();
        let mut files: Vec<OutputFile> = Vec::new();
        let ghost rsv = entries_view(self.content@);
        proof {
            assert(rsv.take(0) =~= Seq::<(Seq<char>, Seq<char>)>::empty());
            assert forall|r: (Seq<char>, Seq<char>)| #[trigger] char_weight()(r) >= 0 by {}
            assert forall|r: (Seq<char>, Seq<char>)| #[trigger] byte_weight()(r) >= 0 by {}
        }
        let mut i: usize = 0;
        while i < self.content.len()
            invariant
                rsv == entries_view(self.content@),
                rsv.len() == self.content@.len(),
                sum_chars(rsv) <= usize::MAX,
                sum_bytes(rsv) <= usize::MAX,
                i <= rsv.len(),
                files@.len() == i,
                forall|k: int|
                    0 <= k < i ==> (#[trigger] files@[k]).filename@ == with_extension_spec(
                        self.content@[k].name@,
                        extension@,
                    ) && files@[k].contents@ == json_encode_spec(self.content@[k].processxml@),
                stats.char_count == sum_weight(rsv.take(i as int), char_weight()),
                stats.array_length == sum_weight(rsv.take(i as int), byte_weight()),
                stats.output_dir@ == if i > 0 {
                    output_dir@
                } else {
                    Seq::<char>::empty()
                },
                stats.output_filename@ == if i > 0 {
                    with_extension_spec(self.content@[i - 1].name@, extension@)
                } else {
                    Seq::<char>::empty()
                },
            decreases rsv.len() - i,
        {
            let entry = &self.content[i];
            let file_name = Self::with_extension(entry.name.as_str(), extension);
            let entry_contents = entry.processxml.clone();
            let rendered = json_encode_string(entry_contents.as_str());
            let cc = entry_contents.as_str().unicode_len();
            let bl = entry_contents.as_str().as_bytes().len();
            proof {
                broadcast use vstd::slice::axiom_spec_len;
            }
            proof {
                assert forall|r: (Seq<char>, Seq<char>)| #[trigger] char_weight()(r) >= 0 by {}
                assert forall|r: (Seq<char>, Seq<char>)| #[trigger] byte_weight()(r) >= 0 by {}
                assert(rsv[i as int] == (entry.name@, entry.processxml@));
                assert(char_weight()(rsv[i as int]) == cc as int);
                assert(byte_weight()(rsv[i as int]) == bl as int);
                lemma_sum_weight_take_succ(rsv, char_weight(), i as int);
                lemma_sum_weight_take_succ(rsv, byte_weight(), i as int);
                lemma_sum_weight_prefix(rsv, char_weight(), i + 1);
                lemma_sum_weight_prefix(rsv, byte_weight(), i + 1);
            }
            stats.wrap_input(cc, bl, String::from_str(output_dir), file_name.clone());
            files.push(OutputFile { filename: file_name, contents: rendered });
            i += 1;
        }
        proof {
            assert(rsv.take(rsv.len() as int) =~= rsv);
        }
        (files, stats)
    }
}

} // verus!
