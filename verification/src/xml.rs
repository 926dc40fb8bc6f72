//! The XML envelope for XML-mode output: a document whose single root
//! element, `process_data`, wraps the JSON-encoded record content as its
//! text, with the five XML-special characters written as entities. The
//! module also holds a strict extractor that recognises exactly the
//! documents the renderer produces, and the law that extraction inverts
//! rendering.

use crate::chars::{from_chars, to_chars};
use vstd::prelude::*;

verus! {

/// The opening tag of the root element.
pub open spec fn open_tag() -> Seq<char> {
    seq!['<', 'p', 'r', 'o', 'c', 'e', 's', 's', '_', 'd', 'a', 't', 'a', '>']
}

/// The closing tag of the root element.
pub open spec fn close_tag() -> Seq<char> {
    seq!['<', '/', 'p', 'r', 'o', 'c', 'e', 's', 's', '_', 'd', 'a', 't', 'a', '>']
}

/// How one character appears as XML text: the five special characters
/// become entities, every other character stands for itself.
pub open spec fn xml_escape_char(c: char) -> Seq<char> {
    if c == '&' {
        seq!['&', 'a', 'm', 'p', ';']
    } else if c == '<' {
        seq!['&', 'l', 't', ';']
    } else if c == '>' {
        seq!['&', 'g', 't', ';']
    } else if c == '"' {
        seq!['&', 'q', 'u', 'o', 't', ';']
    } else if c == '\'' {
        seq!['&', 'a', 'p', 'o', 's', ';']
    } else {
        seq![c]
    }
}

/// The XML text for `s`: each character escaped, in order.
pub open spec fn xml_escape(s: Seq<char>) -> Seq<char>
    decreases s.len(),
{
    if s.len() == 0 {
        Seq::<char>::empty()
    } else {
        xml_escape_char(s[0]) + xml_escape(s.drop_first())
    }
}

/// The whole XML-mode document for the text `s`: the root element
/// wrapping the escaped text.
pub open spec fn xml_document_spec(s: Seq<char>) -> Seq<char> {
    open_tag() + xml_escape(s) + close_tag()
}

/// Escaping distributes over appending one character.
pub proof fn lemma_xml_escape_push(s: Seq<char>, c: char)
    ensures
        xml_escape(s.push(c)) == xml_escape(s) + xml_escape_char(c),
    decreases s.len(),
{
    if s.len() == 0 {
        let t = s.push(c);
        assert(t.len() == 1 && t[0] == c);
        assert(t.drop_first() =~= Seq::<char>::empty());
        assert(xml_escape(Seq::<char>::empty()) == Seq::<char>::empty());
        assert(xml_escape(t) == xml_escape_char(c) + xml_escape(t.drop_first()));
        assert(xml_escape_char(c) + Seq::<char>::empty() =~= xml_escape_char(c));
        assert(xml_escape(s) + xml_escape_char(c) =~= xml_escape_char(c));
    } else {
        assert(s.push(c)[0] == s[0]);
        assert(s.push(c).drop_first() =~= s.drop_first().push(c));
        lemma_xml_escape_push(s.drop_first(), c);
        assert(xml_escape_char(s[0]) + (xml_escape(s.drop_first()) + xml_escape_char(c)) =~= (
        xml_escape_char(s[0]) + xml_escape(s.drop_first())) + xml_escape_char(c));
    }
}

/// Resolve the entities in XML text, strictly: only the five entities
/// the renderer writes are accepted, and a raw special character is
/// rejected.
pub open spec fn xml_unescape(t: Seq<char>) -> Option<Seq<char>>
    decreases t.len(),
{
    if t.len() == 0 {
        Some(Seq::<char>::empty())
    } else if t[0] == '&' {
        if t.len() >= 5 && t[1] == 'a' && t[2] == 'm' && t[3] == 'p' && t[4] == ';' {
            match xml_unescape(t.skip(5)) {
                Some(rest) => Some(seq!['&'] + rest),
                None => None,
            }
        } else if t.len() >= 4 && t[1] == 'l' && t[2] == 't' && t[3] == ';' {
            match xml_unescape(t.skip(4)) {
                Some(rest) => Some(seq!['<'] + rest),
                None => None,
            }
        } else if t.len() >= 4 && t[1] == 'g' && t[2] == 't' && t[3] == ';' {
            match xml_unescape(t.skip(4)) {
                Some(rest) => Some(seq!['>'] + rest),
                None => None,
            }
        } else if t.len() >= 6 && t[1] == 'q' && t[2] == 'u' && t[3] == 'o' && t[4] == 't' && t[5]
            == ';' {
            match xml_unescape(t.skip(6)) {
                Some(rest) => Some(seq!['"'] + rest),
                None => None,
            }
        } else if t.len() >= 6 && t[1] == 'a' && t[2] == 'p' && t[3] == 'o' && t[4] == 's' && t[5]
            == ';' {
            match xml_unescape(t.skip(6)) {
                Some(rest) => Some(seq!['\''] + rest),
                None => None,
            }
        } else {
            None
        }
    } else if t[0] == '<' || t[0] == '>' || t[0] == '"' || t[0] == '\'' {
        None
    } else {
        match xml_unescape(t.skip(1)) {
            Some(rest) => Some(seq![t[0]] + rest),
            None => None,
        }
    }
}

/// Recognise a document of the renderer's shape and give back its text:
/// the root element's tags stripped and the entities resolved.
pub open spec fn xml_extract_spec(doc: Seq<char>) -> Option<Seq<char>> {
    if doc.len() >= open_tag().len() + close_tag().len() && doc.subrange(0, open_tag().len() as int)
        == open_tag() && doc.subrange(doc.len() - close_tag().len(), doc.len() as int)
        == close_tag() {
        xml_unescape(doc.subrange(open_tag().len() as int, doc.len() - close_tag().len()))
    } else {
        None
    }
}

/// Unescaping inverts escaping, one character at a time.
proof fn lemma_xml_unescape_escape(s: Seq<char>)
    ensures
        xml_unescape(xml_escape(s)) == Some(s),
    decreases s.len(),
{
    if s.len() == 0 {
    } else {
        let c = s[0];
        let e = xml_escape_char(c);
        let rest = xml_escape(s.drop_first());
        let t = xml_escape(s);
        assert(t == e + rest);
        lemma_xml_unescape_escape(s.drop_first());
        assert(t.skip(e.len() as int) =~= rest);
        if c == '&' || c == '<' || c == '>' || c == '"' || c == '\'' {
            assert(xml_unescape(t) == Some(seq![c] + s.drop_first()));
        } else {
            assert(t[0] == c);
            assert(xml_unescape(t) == Some(seq![c] + s.drop_first()));
        }
        assert(seq![c] + s.drop_first() =~= s);
    }
}

/// Extraction inverts rendering: the text recovered from an XML-mode
/// document is exactly the text the document was rendered from.
pub proof fn lemma_xml_round_trip(s: Seq<char>)
    ensures
        xml_extract_spec(xml_document_spec(s)) == Some(s),
{
    let doc = xml_document_spec(s);
    assert(doc.subrange(0, open_tag().len() as int) =~= open_tag());
    assert(doc.subrange(doc.len() - close_tag().len(), doc.len() as int) =~= close_tag());
    assert(doc.subrange(open_tag().len() as int, doc.len() - close_tag().len()) =~= xml_escape(s));
    lemma_xml_unescape_escape(s);
}

fn open_tag_chars() -> (v: Vec<char>)
    ensures
        v@ == open_tag(),
{
    let mut v: Vec<char> = Vec::new();
    v.push('<');
    v.push('p');
    v.push('r');
    v.push('o');
    v.push('c');
    v.push('e');
    v.push('s');
    v.push('s');
    v.push('_');
    v.push('d');
    v.push('a');
    v.push('t');
    v.push('a');
    v.push('>');
    proof {
        assert(v@ =~= open_tag());
    }
    v
}

fn close_tag_chars() -> (v: Vec<char>)
    ensures
        v@ == close_tag(),
{
    let mut v: Vec<char> = Vec::new();
    v.push('<');
    v.push('/');
    v.push('p');
    v.push('r');
    v.push('o');
    v.push('c');
    v.push('e');
    v.push('s');
    v.push('s');
    v.push('_');
    v.push('d');
    v.push('a');
    v.push('t');
    v.push('a');
    v.push('>');
    proof {
        assert(v@ =~= close_tag());
    }
    v
}

fn xml_escape_char_into(out: &mut Vec<char>, c: char)
    ensures
        final(out)@ == old(out)@ + xml_escape_char(c),
{
    let ghost prev = out@;
    if c == '&' {
        out.push('&');
        out.push('a');
        out.push('m');
        out.push('p');
        out.push(';');
    } else if c == '<' {
        out.push('&');
        out.push('l');
        out.push('t');
        out.push(';');
    } else if c == '>' {
        out.push('&');
        out.push('g');
        out.push('t');
        out.push(';');
    } else if c == '"' {
        out.push('&');
        out.push('q');
        out.push('u');
        out.push('o');
        out.push('t');
        out.push(';');
    } else if c == '\'' {
        out.push('&');
        out.push('a');
        out.push('p');
        out.push('o');
        out.push('s');
        out.push(';');
    } else {
        out.push(c);
    }
    proof {
        assert(out@ =~= prev + xml_escape_char(c));
    }
}

/// Render the XML-mode document wrapping the text `s`.
pub fn xml_document(s: &str) -> (r: String)
    ensures
        r@ == xml_document_spec(s@),
{
    let cs = to_chars(s);
    let mut out = open_tag_chars();
    let mut i: usize = 0;
    while i < cs.len()
        invariant
            cs@ == s@,
            i <= cs@.len(),
            out@ == open_tag() + xml_escape(cs@.take(i as int)),
        decreases cs@.len() - i,
    {
        xml_escape_char_into(&mut out, cs[i]);
        proof {
            assert(cs@.take(i + 1) =~= cs@.take(i as int).push(cs@[i as int]));
            lemma_xml_escape_push(cs@.take(i as int), cs@[i as int]);
            assert((open_tag() + xml_escape(cs@.take(i as int))) + xml_escape_char(cs@[i as int])
                =~= open_tag() + (xml_escape(cs@.take(i as int)) + xml_escape_char(cs@[i as int])));
        }
        i += 1;
    }
    let mut close = close_tag_chars();
    let ghost before = out@;
    let mut k: usize = 0;
    while k < close.len()
        invariant
            close@ == close_tag(),
            k <= close@.len(),
            before == open_tag() + xml_escape(cs@.take(cs@.len() as int)),
            cs@ == s@,
            out@ == before + close@.take(k as int),
        decreases close@.len() - k,
    {
        out.push(close[k]);
        proof {
            assert(close@.take(k + 1) =~= close@.take(k as int).push(close@[k as int]));
            assert((before + close@.take(k as int)).push(close@[k as int]) =~= before + close@.take(
                k + 1,
            ));
        }
        k += 1;
    }
    proof {
        assert(cs@.take(cs@.len() as int) =~= s@);
        assert(close@.take(close@.len() as int) =~= close_tag());
        assert(out@ =~= xml_document_spec(s@));
    }
    from_chars(&out)
}

/// Whether the characters of `tag` appear in `cs` starting at `start`.
fn matches_at(cs: &Vec<char>, start: usize, tag: &Vec<char>) -> (r: bool)
    requires
        start + tag@.len() <= cs@.len(),
    ensures
        r == (cs@.subrange(start as int, start + tag@.len()) == tag@),
{
    let total = cs.len();
    let mut i: usize = 0;
    while i < tag.len()
        invariant
            start + tag@.len() <= cs@.len(),
            total == cs@.len(),
            i <= tag@.len(),
            forall|k: int| 0 <= k < i ==> cs@[start + k] == tag@[k],
        decreases tag@.len() - i,
    {
        if cs[start + i] != tag[i] {
            proof {
                assert(cs@.subrange(start as int, start + tag@.len())[i as int] == cs@[start + i]);
            }
            return false;
        }
        i += 1;
    }
    proof {
        assert(cs@.subrange(start as int, start + tag@.len()) =~= tag@);
    }
    true
}

/// Resolve the entities in the XML text `body`. Returns the text, or
/// None exactly when the strict spec-level unescape rejects it.
fn unescape_xml_chars(body: &Vec<char>) -> (r: Option<Vec<char>>)
    ensures
        match r {
            Some(v) => xml_unescape(body@) == Some(v@),
            None => xml_unescape(body@) is None,
        },
{
    let n = body.len();
    let mut out: Vec<char> = Vec::new();
    let mut j: usize = 0;
    proof {
        assert(body@.skip(0) =~= body@);
        if xml_unescape(body@) is Some {
            assert(out@ + xml_unescape(body@).unwrap() =~= xml_unescape(body@).unwrap());
        }
    }
    while j < n
        invariant
            n == body@.len(),
            j <= n,
            match xml_unescape(body@.skip(j as int)) {
                Some(rest) => xml_unescape(body@) == Some(out@ + rest),
                None => xml_unescape(body@) is None,
            },
        decreases n - j,
    {
        let ghost rem = body@.skip(j as int);
        let ghost prev = out@;
        let c = body[j];
        assert(rem[0] == c);
        let decoded: char;
        let width: usize;
        if c == '&' {
            if n - j >= 5 && body[j + 1] == 'a' && body[j + 2] == 'm' && body[j + 3] == 'p' && body[j
                + 4] == ';' {
                decoded = '&';
                width = 5;
            } else if n - j >= 4 && body[j + 1] == 'l' && body[j + 2] == 't' && body[j + 3] == ';' {
                decoded = '<';
                width = 4;
            } else if n - j >= 4 && body[j + 1] == 'g' && body[j + 2] == 't' && body[j + 3] == ';' {
                decoded = '>';
                width = 4;
            } else if n - j >= 6 && body[j + 1] == 'q' && body[j + 2] == 'u' && body[j + 3] == 'o'
                && body[j + 4] == 't' && body[j + 5] == ';' {
                decoded = '"';
                width = 6;
            } else if n - j >= 6 && body[j + 1] == 'a' && body[j + 2] == 'p' && body[j + 3] == 'o'
                && body[j + 4] == 's' && body[j + 5] == ';' {
                decoded = '\'';
                width = 6;
            } else {
                proof {
                    assert(forall|k: int| 1 <= k < rem.len() ==> rem[k] == body@[j + k]);
                    assert(xml_unescape(rem) is None);
                }
                return None;
            }
        } else if c == '<' || c == '>' || c == '"' || c == '\'' {
            return None;
        } else {
            decoded = c;
            width = 1;
        }
        out.push(decoded);
        proof {
            assert(forall|k: int| 0 <= k < rem.len() ==> rem[k] == body@[j + k]);
            assert(rem.skip(width as int) =~= body@.skip(j + width));
            if xml_unescape(body@.skip(j + width)) is Some {
                let r2 = xml_unescape(body@.skip(j + width)).unwrap();
                assert(xml_unescape(rem) == Some(seq![decoded] + r2));
                assert(prev + (seq![decoded] + r2) =~= out@ + r2);
            }
        }
        j = j + width;
    }
    proof {
        assert(body@.skip(n as int) =~= Seq::<char>::empty());
        assert(out@ + Seq::<char>::empty() =~= out@);
    }
    Some(out)
}

/// Recover the text of an XML-mode document: strip the root element's
/// tags and resolve the entities. Returns None exactly when the document
/// does not have the renderer's shape.
pub fn xml_extract_text(doc: &str) -> (r: Option<String>)
    ensures
        match r {
            Some(s) => xml_extract_spec(doc@) == Some(s@),
            None => xml_extract_spec(doc@) is None,
        },
{
    let cs = to_chars(doc);
    let n = cs.len();
    let open = open_tag_chars();
    let close = close_tag_chars();
    if n < open.len() + close.len() {
        return None;
    }
    if !matches_at(&cs, 0, &open) {
        return None;
    }
    if !matches_at(&cs, n - close.len(), &close) {
        return None;
    }
    let mut body: Vec<char> = Vec::new();
    let mut i: usize = open.len();
    while i < n - close.len()
        invariant
            cs@ == doc@,
            n == cs@.len(),
            open@.len() + close@.len() <= n,
            open@.len() <= i <= n - close@.len(),
            open@ == open_tag(),
            close@ == close_tag(),
            body@ == cs@.subrange(open@.len() as int, i as int),
        decreases n - i,
    {
        body.push(cs[i]);
        proof {
            assert(cs@.subrange(open@.len() as int, i + 1) =~= cs@.subrange(
                open@.len() as int,
                i as int,
            ).push(cs@[i as int]));
        }
        i += 1;
    }
    proof {
        assert(body@ =~= doc@.subrange(open_tag().len() as int, doc@.len() - close_tag().len()));
    }
    match unescape_xml_chars(&body) {
        Some(v) => Some(from_chars(&v)),
        None => None,
    }
}

} // verus!
