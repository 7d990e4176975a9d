//! Reading the channel counts of a Csound CSD document.
//!
//! The orchestra text is the first text inside the `<CsInstruments>` element;
//! its header lines, up to the first `instr` line, may assign `nchnls` (the
//! number of output channels) and `nchnls_i` (the number of input channels).

use vstd::prelude::*;
use crate::xml::{csd_events, next_xml_event, xml_events, XmlEvent};

verus! {

// ---------------------------------------------------------------------------
// Settings
// ---------------------------------------------------------------------------

/// Channel counts of a CSD document.
#[derive(Debug, Clone, Copy, PartialEq, Eq)]
pub struct CsdSettings {
    pub out_size: usize,
    pub in_size: usize,
}

impl Default for CsdSettings {
    /// Stereo in and out.
    fn default() -> (s: Self)
        ensures
            s.out_size == 2,
            s.in_size == 2,
    {
        CsdSettings { out_size: 2, in_size: 2 }
    }
}

// ---------------------------------------------------------------------------
// XML events
// ---------------------------------------------------------------------------

/// The bytes of the tag name `CsInstruments`.
pub open spec fn instruments_tag() -> Seq<u8> {
    seq![67u8, 115u8, 73u8, 110u8, 115u8, 116u8, 114u8, 117u8, 109u8, 101u8, 110u8, 116u8, 115u8]
}

pub open spec fn opt_chars(o: Option<String>) -> Option<Seq<char>> {
    match o {
        Some(s) => Some(s@),
        None => None,
    }
}

/// The orchestra text found in `evs`, once `inside` tells whether a
/// `<CsInstruments>` tag has been opened and `first` holds the first text
/// seen since: texts are taken only after that tag; the search ends at the
/// first closing tag after it, or at the end of the document. A text inside
/// that cannot be decoded gives no result.
pub open spec fn instruments_scan(evs: Seq<XmlEvent>, inside: bool, first: Option<Seq<char>>) -> Option<
    Seq<char>,
>
    decreases evs.len(),
{
    if evs.len() == 0 {
        first
    } else {
        let rest = evs.drop_first();
        match evs[0] {
            XmlEvent::Start(name) => instruments_scan(
                rest,
                inside || name@ == instruments_tag(),
                first,
            ),
            XmlEvent::Text(t) => if inside && first is None {
                instruments_scan(rest, inside, Some(t@))
            } else {
                instruments_scan(rest, inside, first)
            },
            XmlEvent::UndecodableText => if inside {
                None
            } else {
                instruments_scan(rest, inside, first)
            },
            XmlEvent::End => if inside {
                first
            } else {
                instruments_scan(rest, inside, first)
            },
            XmlEvent::Eof => first,
            XmlEvent::Other => instruments_scan(rest, inside, first),
        }
    }
}

/// The first text inside `<CsInstruments>` among the events `evs`.
pub open spec fn instruments_text_of(evs: Seq<XmlEvent>) -> Option<Seq<char>> {
    instruments_scan(evs, false, None)
}

/// Whether `name` is `CsInstruments`.
fn is_instruments_tag(name: &Vec<u8>) -> (b: bool)
    ensures
        b == (name@ == instruments_tag()),
{
    let tag: [u8; 13] = [67, 115, 73, 110, 115, 116, 114, 117, 109, 101, 110, 116, 115];
    assert(tag@ == instruments_tag());
    if name.len() != 13 {
        return false;
    }
    let mut i: usize = 0;
    while i < 13
        invariant
            name@.len() == 13,
            tag@ == instruments_tag(),
            i <= 13,
            forall|j: int| 0 <= j < i ==> name@[j] == tag@[j],
        decreases 13 - i,
    {
        if name[i] != tag[i] {
            return false;
        }
        i += 1;
    }
    assert(name@ =~= instruments_tag());
    true
}

/// The orchestra text among a document's events: the first text after the
/// `<CsInstruments>` tag, provided it comes before the next closing tag and
/// the end of the document.
pub fn instruments_text_from_events(events: &Vec<XmlEvent>) -> (text: Option<String>)
    ensures
        opt_chars(text) == instruments_text_of(events@),
{
    let mut inside = false;
    let mut first: Option<String> = None;
    let mut i: usize = 0;
    assert(events@.skip(0) =~= events@);
    while i < events.len()
        invariant
            i <= events.len(),
            instruments_text_of(events@) == instruments_scan(
                events@.skip(i as int),
                inside,
                opt_chars(first),
            ),
        decreases events.len() - i,
    {
        assert(events@.skip(i as int).drop_first() =~= events@.skip(i + 1));
        assert(events@.skip(i as int)[0] == events@[i as int]);
        match &events[i] {
            XmlEvent::Start(name) => {
                if is_instruments_tag(name) {
                    inside = true;
                }
            },
            XmlEvent::Text(t) => {
                if inside && first.is_none() {
                    first = Some(t.clone());
                }
            },
            XmlEvent::UndecodableText => {
                if inside {
                    return None;
                }
            },
            XmlEvent::End => {
                if inside {
                    return first;
                }
            },
            XmlEvent::Eof => {
                return first;
            },
            XmlEvent::Other => {},
        }
        i += 1;
    }
    first
}

/// The orchestra text of a CSD document: the first text inside its
/// `<CsInstruments>` element, read with quick_xml. Events are read up to the
/// one that settles the search, and handed to `instruments_text_from_events`.
pub fn get_csd_instruments_text(csd_file_content: &str) -> (text: Option<String>)
    ensures
        opt_chars(text) == instruments_text_of(csd_events(csd_file_content@)),
{
    let mut reader = xml_events(csd_file_content);
    let ghost evs = csd_events(csd_file_content@);
    let mut buf: Vec<u8> = Vec::new();
    let mut events: Vec<XmlEvent> = Vec::new();
    let mut inside = false;
    let ghost mut first: Option<Seq<char>> = None;
    assert(evs.skip(0) =~= evs);
    assert forall|q: Seq<XmlEvent>| #[trigger] instruments_scan(events@ + q, false, None)
        == instruments_scan(q, inside, first) by {
        assert(events@ + q =~= q);
    }
    loop
        invariant
            reader@.0 == csd_file_content@,
            evs == csd_events(csd_file_content@),
            reader@.1 <= evs.len(),
            instruments_text_of(evs) == instruments_scan(evs.skip(reader@.1 as int), inside, first),
            forall|q: Seq<XmlEvent>| #[trigger] instruments_scan(events@ + q, false, None)
                == instruments_scan(q, inside, first),
        decreases evs.len() - reader@.1,
    {
        let ghost pos = reader@.1;
        let ev = next_xml_event(&mut reader, &mut buf);
        proof {
            if pos < evs.len() {
                assert(evs.skip(pos as int).drop_first() =~= evs.skip((pos + 1) as int));
                assert(evs.skip(pos as int)[0] == evs[pos as int]);
            } else {
                assert(evs.skip(pos as int) =~= Seq::<XmlEvent>::empty());
            }
        }
        let ghost gev = ev;
        let ghost old_inside = inside;
        let ghost old_first = first;
        let ghost old_events = events@;
        let stop = match &ev {
            XmlEvent::Start(name) => {
                if is_instruments_tag(name) {
                    inside = true;
                }
                false
            },
            XmlEvent::Text(t) => {
                proof {
                    if inside && first is None {
                        first = Some(t@);
                    }
                }
                false
            },
            XmlEvent::UndecodableText => inside,
            XmlEvent::End => inside,
            XmlEvent::Eof => true,
            XmlEvent::Other => false,
        };
        events.push(ev);
        proof {
            assert forall|q: Seq<XmlEvent>| #[trigger] instruments_scan(events@ + q, false, None)
                == (if stop {
                instruments_scan(seq![gev], old_inside, old_first)
            } else {
                instruments_scan(q, inside, first)
            }) by {
                assert(events@ + q =~= old_events + (seq![gev] + q));
                assert((seq![gev] + q)[0] == gev);
                assert((seq![gev] + q).drop_first() =~= q);
                assert(seq![gev].drop_first() =~= Seq::<XmlEvent>::empty());
            }
        }
        if stop {
            proof {
                assert(events@ + Seq::<XmlEvent>::empty() =~= events@);
            }
            let text = instruments_text_from_events(&events);
            return text;
        }
        buf.clear();
    }
}

// ---------------------------------------------------------------------------
// The orchestra header
// ---------------------------------------------------------------------------

/// `char::is_whitespace`: the Unicode `White_Space` characters.
pub open spec fn is_whitespace(c: char) -> bool {
    let u = c as u32;
    ||| u == 0x20
    ||| 0x09 <= u <= 0x0d
    ||| u == 0x85
    ||| u == 0xa0
    ||| u == 0x1680
    ||| 0x2000 <= u <= 0x200a
    ||| u == 0x2028
    ||| u == 0x2029
    ||| u == 0x202f
    ||| u == 0x205f
    ||| u == 0x3000
}

/// `str::trim_start`: `s` without its leading whitespace.
pub open spec fn trim_start(s: Seq<char>) -> Seq<char>
    decreases s.len(),
{
    if s.len() > 0 && is_whitespace(s[0]) {
        trim_start(s.drop_first())
    } else {
        s
    }
}

/// The index of the first `'\n'` at or after `k`, or the length of `s`.
pub open spec fn line_end(s: Seq<char>, k: int) -> int
    decreases s.len() - k,
{
    if k < 0 || k >= s.len() || s[k] == '\n' {
        k
    } else {
        line_end(s, k + 1)
    }
}

/// A line without the `'\r'` of a `"\r\n"` ending.
pub open spec fn strip_cr(l: Seq<char>) -> Seq<char> {
    if l.len() > 0 && l.last() == '\r' {
        l.drop_last()
    } else {
        l
    }
}

/// `str::lines`: the pieces of `s` between `'\n'`s, each without the `'\r'`
/// of a `"\r\n"`; a final empty piece is not a line.
pub open spec fn lines(s: Seq<char>) -> Seq<Seq<char>>
    decreases s.len(),
{
    if s.len() == 0 {
        seq![]
    } else {
        let e = line_end(s, 0);
        if 0 <= e < s.len() {
            seq![strip_cr(s.take(e))] + lines(s.skip(e + 1))
        } else {
            seq![s]
        }
    }
}

pub open spec fn is_blank(c: char) -> bool {
    c == ' ' || c == '\t'
}

/// `l` with every `' '` and `'\t'` removed.
pub open spec fn strip_blanks(l: Seq<char>) -> Seq<char>
    decreases l.len(),
{
    if l.len() == 0 {
        l
    } else if is_blank(l.last()) {
        strip_blanks(l.drop_last())
    } else {
        strip_blanks(l.drop_last()).push(l.last())
    }
}

/// `i` is the place of the only `'='` in `c`.
pub open spec fn single_eq_at(c: Seq<char>, i: int) -> bool {
    &&& 0 <= i < c.len()
    &&& c[i] == '='
    &&& forall|j: int| 0 <= j < c.len() && j != i ==> c[j] != '='
}

/// A header line ends the header when it starts with `instr` and holds no `'='`.
pub open spec fn closes_header(c: Seq<char>) -> bool {
    &&& c.len() >= 5
    &&& c.take(5) == seq!['i', 'n', 's', 't', 'r']
    &&& !c.contains('=')
}

pub open spec fn is_digit(c: char) -> bool {
    48 <= (c as u32) <= 57
}

/// The number written by the decimal digits `d`.
pub open spec fn digits_value(d: Seq<char>) -> nat
    decreases d.len(),
{
    if d.len() == 0 {
        0
    } else {
        digits_value(d.drop_last()) * 10 + ((d.last() as u32) - 48) as nat
    }
}

/// The part of `s` after an optional leading `'+'`.
pub open spec fn unsigned_part(s: Seq<char>) -> Seq<char> {
    if s.len() > 0 && s[0] == '+' {
        s.drop_first()
    } else {
        s
    }
}

pub open spec fn all_digits(d: Seq<char>) -> bool {
    forall|i: int| 0 <= i < d.len() ==> is_digit(#[trigger] d[i])
}

/// `<usize as FromStr>::from_str`: an optional `'+'`, then one or more
/// decimal digits whose value fits in a `usize`.
pub open spec fn parse_usize(s: Seq<char>) -> Option<usize> {
    let d = unsigned_part(s);
    if d.len() > 0 && all_digits(d) && digits_value(d) <= usize::MAX {
        Some(digits_value(d) as usize)
    } else {
        None
    }
}

pub open spec fn nchnls_word() -> Seq<char> {
    seq!['n', 'c', 'h', 'n', 'l', 's']
}

pub open spec fn nchnls_i_word() -> Seq<char> {
    seq!['n', 'c', 'h', 'n', 'l', 's', '_', 'i']
}

/// The channel counts after the header line `c` (blanks removed): a line
/// `nchnls=<n>` sets the output count and `nchnls_i=<n>` the input count,
/// where `<n>` parses as a `usize`; any other line changes nothing.
pub open spec fn assign_counts(c: Seq<char>, out: Option<usize>, inn: Option<usize>) -> (
    Option<usize>,
    Option<usize>,
) {
    if exists|i: int| single_eq_at(c, i) {
        let i = choose|i: int| single_eq_at(c, i);
        let name = c.take(i);
        let v = parse_usize(c.skip(i + 1));
        (
            if name == nchnls_word() && v is Some {
                v
            } else {
                out
            },
            if name == nchnls_i_word() && v is Some {
                v
            } else {
                inn
            },
        )
    } else {
        (out, inn)
    }
}

/// The channel counts after the header lines `ls`, starting from `out` and
/// `inn`: lines are read in order, with blanks removed, up to the line that
/// closes the header.
pub open spec fn scan_lines(ls: Seq<Seq<char>>, out: Option<usize>, inn: Option<usize>) -> (
    Option<usize>,
    Option<usize>,
)
    decreases ls.len(),
{
    if ls.len() == 0 {
        (out, inn)
    } else {
        let c = strip_blanks(ls[0]);
        if closes_header(c) {
            (out, inn)
        } else {
            let next = assign_counts(c, out, inn);
            scan_lines(ls.drop_first(), next.0, next.1)
        }
    }
}

/// The settings that an orchestra text states: present when the header sets
/// the output count; the input count is 0 when the header does not set it.
pub open spec fn settings_of_text(text: Seq<char>) -> Option<CsdSettings> {
    let counts = scan_lines(lines(trim_start(text)), None, None);
    match counts.0 {
        Some(o) => Some(
            CsdSettings {
                out_size: o,
                in_size: match counts.1 {
                    Some(i) => i,
                    None => 0,
                },
            },
        ),
        None => None,
    }
}

/// The settings of a document whose events are `evs`.
pub open spec fn settings_of_events(evs: Seq<XmlEvent>) -> Option<CsdSettings> {
    match instruments_text_of(evs) {
        Some(t) => settings_of_text(t),
        None => None,
    }
}

fn chars_of(text: &str) -> (cs: Vec<char>)
    ensures
        cs@ == text@,
{
    broadcast use vstd::string::axiom_spec_iter;

    let mut cs: Vec<char> = Vec::new();
    for c in it: text.chars()
        invariant
            it.seq() == text@,
            cs@ == it.seq().take(it.index() as int),
    {
        cs.push(c);
    }
    cs
}

/// `char::is_whitespace`.
pub fn char_is_whitespace(c: char) -> (b: bool)
    ensures
        b == is_whitespace(c),
{
    let u = c as u32;
    u == 0x20 || (0x09 <= u && u <= 0x0d) || u == 0x85 || u == 0xa0 || u == 0x1680 || (0x2000
        <= u && u <= 0x200a) || u == 0x2028 || u == 0x2029 || u == 0x202f || u == 0x205f || u
        == 0x3000
}

proof fn lemma_line_end_bounds(s: Seq<char>, k: int)
    requires
        0 <= k <= s.len(),
    ensures
        k <= line_end(s, k) <= s.len(),
        line_end(s, k) < s.len() ==> s[line_end(s, k)] == '\n',
        forall|j: int| k <= j < line_end(s, k) ==> s[j] != '\n',
    decreases s.len() - k,
{
    if k < s.len() && s[k] != '\n' {
        lemma_line_end_bounds(s, k + 1);
    }
}

/// Reads the line that starts at `pos`: its characters with blanks removed,
/// and where the next line starts.
fn read_line(cs: &Vec<char>, pos: usize) -> (res: (Vec<char>, usize))
    requires
        pos < cs.len(),
    ensures
        pos < res.1 <= cs.len(),
        lines(cs@.skip(pos as int)).len() > 0,
        lines(cs@.skip(pos as int)).drop_first() == lines(cs@.skip(res.1 as int)),
        res.0@ == strip_blanks(lines(cs@.skip(pos as int))[0]),
{
    let ghost t = cs@.skip(pos as int);
    let n = cs.len();
    let mut line: Vec<char> = Vec::new();
    let mut e = pos;
    proof {
        lemma_line_end_bounds(t, 0);
    }
    while e < n && cs[e] != '\n'
        invariant
            t == cs@.skip(pos as int),
            n == cs.len(),
            pos <= e <= n,
            line_end(t, (e - pos) as int) == line_end(t, 0),
            line@ == strip_blanks(cs@.subrange(pos as int, e as int)),
        decreases n - e,
    {
        let c = cs[e];
        assert(cs@.subrange(pos as int, e + 1).drop_last() =~= cs@.subrange(pos as int, e as int));
        if c != ' ' && c != '\t' {
            line.push(c);
        }
        e += 1;
    }
    let ghost le = line_end(t, 0);
    assert(le == e - pos);
    if e < n {
        assert(t.take(le) =~= cs@.subrange(pos as int, e as int));
        assert(t.skip(le + 1) =~= cs@.skip(e + 1));
        if e > pos && cs[e - 1] == '\r' {
            assert(cs@.subrange(pos as int, e as int).drop_last() =~= cs@.subrange(
                pos as int,
                e - 1,
            ));
            line.pop();
        }
        assert((seq![strip_cr(t.take(le))] + lines(t.skip(le + 1))).drop_first() =~= lines(
            t.skip(le + 1),
        ));
        (line, e + 1)
    } else {
        assert(t =~= cs@.subrange(pos as int, e as int));
        assert(cs@.skip(n as int) =~= Seq::<char>::empty());
        assert(seq![t].drop_first() =~= lines(cs@.skip(n as int)));
        (line, n)
    }
}

/// Whether the blank-free header line `c` closes the header.
fn line_closes_header(c: &Vec<char>) -> (b: bool)
    ensures
        b == closes_header(c@),
{
    let n = c.len();
    let mut i: usize = 0;
    while i < n
        invariant
            n == c@.len(),
            i <= n,
            forall|j: int| 0 <= j < i ==> c@[j] != '=',
        decreases n - i,
    {
        if c[i] == '=' {
            assert(c@.contains('='));
            return false;
        }
        i += 1;
    }
    if n < 5 {
        return false;
    }
    let b = c[0] == 'i' && c[1] == 'n' && c[2] == 's' && c[3] == 't' && c[4] == 'r';
    proof {
        if b {
            assert(c@.take(5) =~= seq!['i', 'n', 's', 't', 'r']);
        } else {
            if c@.take(5) == seq!['i', 'n', 's', 't', 'r'] {
                assert(c@.take(5)[0] == c@[0]);
                assert(c@.take(5)[1] == c@[1]);
                assert(c@.take(5)[2] == c@[2]);
                assert(c@.take(5)[3] == c@[3]);
                assert(c@.take(5)[4] == c@[4]);
            }
        }
    }
    b
}

proof fn lemma_digits_value_grows(d: Seq<char>, k: int)
    requires
        0 <= k <= d.len(),
        forall|i: int| 0 <= i < d.len() ==> is_digit(#[trigger] d[i]),
    ensures
        digits_value(d.take(k)) <= digits_value(d),
    decreases d.len() - k,
{
    if k < d.len() {
        lemma_digits_value_grows(d, k + 1);
        assert(d.take(k + 1).drop_last() =~= d.take(k));
    } else {
        assert(d.take(k) =~= d);
    }
}

/// `<usize as FromStr>::from_str` on the characters of `cs` from `from` on.
fn parse_usize_from(cs: &Vec<char>, from: usize) -> (r: Option<usize>)
    requires
        from <= cs.len(),
    ensures
        r == parse_usize(cs@.skip(from as int)),
{
    let ghost s = cs@.skip(from as int);
    let n = cs.len();
    let mut k = from;
    if k < n && cs[k] == '+' {
        k += 1;
    }
    let ghost d = cs@.skip(k as int);
    assert(d =~= unsigned_part(s));
    if k >= n {
        return None;
    }
    let mut v: usize = 0;
    let mut j = k;
    assert(cs@.subrange(k as int, k as int) =~= Seq::<char>::empty());
    while j < n
        invariant
            n == cs.len(),
            k < n,
            k <= j <= n,
            s == cs@.skip(from as int),
            d == cs@.skip(k as int),
            d == unsigned_part(s),
            v == digits_value(cs@.subrange(k as int, j as int)),
            forall|i: int| k <= i < j ==> is_digit(#[trigger] cs@[i]),
        decreases n - j,
    {
        let u = cs[j] as u32;
        if u < 48 || u > 57 {
            assert(d[j - k] == cs@[j as int]);
            assert(!is_digit(d[j - k]));
            assert(!all_digits(d));
            return None;
        }
        let digit = (u - 48) as usize;
        assert(cs@.subrange(k as int, j + 1).drop_last() =~= cs@.subrange(k as int, j as int));
        if v > (usize::MAX - digit) / 10 {
            proof {
                let p = cs@.subrange(k as int, j + 1);
                assert(p.last() == cs@[j as int]);
                assert(digits_value(p) == v * 10 + digit);
                assert(v * 10 + digit > usize::MAX);
                if all_digits(d) {
                    lemma_digits_value_grows(d, j + 1 - k);
                    assert(d.take(j + 1 - k) =~= p);
                }
            }
            return None;
        }
        v = v * 10 + digit;
        j += 1;
    }
    assert(cs@.subrange(k as int, n as int) =~= d);
    assert forall|i: int| 0 <= i < d.len() implies is_digit(#[trigger] d[i]) by {
        assert(d[i] == cs@[k + i]);
    }
    assert(all_digits(d));
    Some(v)
}

/// Whether `c[start..end]` spells `word`.
fn spells(c: &Vec<char>, start: usize, end: usize, word: &Vec<char>) -> (b: bool)
    requires
        start <= end <= c.len(),
    ensures
        b == (c@.subrange(start as int, end as int) == word@),
{
    if end - start != word.len() {
        return false;
    }
    let mut i: usize = 0;
    while i < word.len()
        invariant
            start <= end <= c.len(),
            end - start == word.len(),
            i <= word.len(),
            forall|j: int| 0 <= j < i ==> c@[start + j] == word@[j],
        decreases word.len() - i,
    {
        if c[start + i] != word[i] {
            assert(c@.subrange(start as int, end as int)[i as int] != word@[i as int]);
            return false;
        }
        i += 1;
    }
    assert(c@.subrange(start as int, end as int) =~= word@);
    true
}

/// The channel counts after the blank-free header line `c`.
fn apply_line(c: &Vec<char>, out: Option<usize>, inn: Option<usize>) -> (r: (
    Option<usize>,
    Option<usize>,
))
    ensures
        r == assign_counts(c@, out, inn),
{
    let n = c.len();
    let mut first: Option<usize> = None;
    let mut i: usize = 0;
    while i < n
        invariant
            n == c@.len(),
            i <= n,
            match first {
                None => forall|j: int| 0 <= j < i ==> c@[j] != '=',
                Some(f) => f < i && single_eq_at(c@.take(i as int), f as int),
            },
        decreases n - i,
    {
        if c[i] == '=' {
            match first {
                None => {
                    first = Some(i);
                },
                Some(f) => {
                    assert(c@.take(i as int)[f as int] == '=');
                    assert(!single_eq_at(c@, f as int));
                    assert(!single_eq_at(c@, i as int));
                    assert forall|x: int| !single_eq_at(c@, x) by {
                        if single_eq_at(c@, x) {
                            assert(x == f || x == i);
                        }
                    }
                    return (out, inn);
                },
            }
        }
        i += 1;
    }
    assert(c@.take(n as int) =~= c@);
    match first {
        None => {
            assert forall|x: int| !single_eq_at(c@, x) by {}
            (out, inn)
        },
        Some(f) => {
            assert(single_eq_at(c@, f as int));
            let ghost ch = choose|x: int| single_eq_at(c@, x);
            assert(ch == f);
            let v = parse_usize_from(c, f + 1);
            let nchnls = vec!['n', 'c', 'h', 'n', 'l', 's'];
            let nchnls_i = vec!['n', 'c', 'h', 'n', 'l', 's', '_', 'i'];
            assert(nchnls@ == nchnls_word());
            assert(nchnls_i@ == nchnls_i_word());
            assert(c@.subrange(0, f as int) =~= c@.take(f as int));
            let is_out = spells(c, 0, f, &nchnls);
            let is_in = spells(c, 0, f, &nchnls_i);
            let new_out = if is_out && v.is_some() {
                v
            } else {
                out
            };
            let new_in = if is_in && v.is_some() {
                v
            } else {
                inn
            };
            (new_out, new_in)
        },
    }
}

fn settings_from_counts(out: Option<usize>, inn: Option<usize>) -> (r: Option<CsdSettings>)
    ensures
        r == (match out {
            Some(o) => Some(
                CsdSettings {
                    out_size: o,
                    in_size: match inn {
                        Some(i) => i,
                        None => 0,
                    },
                },
            ),
            None => None,
        }),
{
    match out {
        Some(o) => Some(CsdSettings { out_size: o, in_size: inn.unwrap_or(0) }),
        None => None,
    }
}

/// The settings stated by an orchestra text: the last valid `nchnls=<n>` of
/// its header gives the output count, the last valid `nchnls_i=<n>` the input
/// count (0 when there is none); without an output count there are no
/// settings. The header is the text before the first line that starts with
/// `instr` and holds no `'='`; blanks and tabs inside a line are ignored.
pub fn settings_from_instruments(text: &str) -> (r: Option<CsdSettings>)
    ensures
        r == settings_of_text(text@),
{
    let cs = chars_of(text);
    let n = cs.len();
    let mut pos: usize = 0;
    assert(cs@.skip(0) =~= cs@);
    while pos < n && char_is_whitespace(cs[pos])
        invariant
            n == cs.len(),
            pos <= n,
            trim_start(cs@) == trim_start(cs@.skip(pos as int)),
        decreases n - pos,
    {
        assert(cs@.skip(pos as int).drop_first() =~= cs@.skip(pos + 1));
        pos += 1;
    }
    assert(trim_start(cs@) == cs@.skip(pos as int));
    let mut out: Option<usize> = None;
    let mut inn: Option<usize> = None;
    while pos < n
        invariant
            n == cs.len(),
            cs@ == text@,
            pos <= n,
            scan_lines(lines(trim_start(cs@)), None, None) == scan_lines(
                lines(cs@.skip(pos as int)),
                out,
                inn,
            ),
        decreases n - pos,
    {
        let (line, next) = read_line(&cs, pos);
        if line_closes_header(&line) {
            proof {
                let ls = lines(cs@.skip(pos as int));
                assert(strip_blanks(ls[0]) == line@);
                assert(scan_lines(ls, out, inn) == (out, inn));
            }
            return settings_from_counts(out, inn);
        }
        let counts = apply_line(&line, out, inn);
        out = counts.0;
        inn = counts.1;
        pos = next;
    }
    assert(cs@.skip(n as int) =~= Seq::<char>::empty());
    settings_from_counts(out, inn)
}

/// The channel counts of a CSD document: the settings stated by its orchestra
/// text, when it has one.
pub fn parse_csd_settings(csd_file_content: &str) -> (r: Option<CsdSettings>)
    ensures
        r == settings_of_events(csd_events(csd_file_content@)),
{
    let text = get_csd_instruments_text(csd_file_content);
    match text {
        Some(t) => settings_from_instruments(t.as_str()),
        None => None,
    }
}

/// How many leading whitespace characters `trim_start` removes.
pub open spec fn trim_count(s: Seq<char>) -> nat
    decreases s.len(),
{
    if s.len() > 0 && is_whitespace(s[0]) {
        1 + trim_count(s.drop_first())
    } else {
        0
    }
}

proof fn lemma_trim_count(s: Seq<char>)
    ensures
        trim_count(s) <= s.len(),
        trim_start(s) == s.skip(trim_count(s) as int),
        forall|k: int| 0 <= k < trim_count(s) ==> is_whitespace(#[trigger] s[k]),
    decreases s.len(),
{
    if s.len() > 0 && is_whitespace(s[0]) {
        let t = s.drop_first();
        lemma_trim_count(t);
        assert(t.skip(trim_count(t) as int) =~= s.skip(trim_count(s) as int));
        assert forall|k: int| 0 <= k < trim_count(s) implies is_whitespace(#[trigger] s[k]) by {
            if k > 0 {
                assert(s[k] == t[k - 1]);
            }
        }
    } else {
        assert(s.skip(0) =~= s);
    }
}

proof fn lemma_trim_count_append(x: Seq<char>, y: Seq<char>)
    requires
        trim_count(x) < x.len(),
    ensures
        trim_count(x + y) == trim_count(x),
    decreases x.len(),
{
    assert((x + y)[0] == x[0]);
    if is_whitespace(x[0]) {
        assert((x + y).drop_first() =~= x.drop_first() + y);
        lemma_trim_count_append(x.drop_first(), y);
    }
}

proof fn lemma_line_end_append(p: Seq<char>, b: Seq<char>, k: int)
    requires
        0 <= k <= line_end(p, k) < p.len(),
    ensures
        line_end(p + b, k) == line_end(p, k),
    decreases p.len() - k,
{
    assert((p + b)[k] == p[k]);
    if p[k] != '\n' {
        lemma_line_end_bounds(p, k + 1);
        lemma_line_end_append(p, b, k + 1);
    }
}

/// The lines of a text that ends with `'\n'`, followed by more text, are its
/// own lines followed by those of the rest.
proof fn lemma_lines_append(p: Seq<char>, b: Seq<char>)
    requires
        p.len() > 0,
        p.last() == '\n',
    ensures
        lines(p + b) == lines(p) + lines(b),
    decreases p.len(),
{
    lemma_line_end_bounds(p, 0);
    let e = line_end(p, 0);
    assert(e < p.len());
    lemma_line_end_append(p, b, 0);
    assert((p + b).take(e) =~= p.take(e));
    assert((p + b).skip(e + 1) =~= p.skip(e + 1) + b);
    let r = p.skip(e + 1);
    if r.len() == 0 {
        assert(r + b =~= b);
        assert(lines(r) =~= Seq::<Seq<char>>::empty());
        assert(lines(p) =~= seq![strip_cr(p.take(e))]);
    } else {
        assert(r.last() == p.last());
        lemma_lines_append(r, b);
        assert(seq![strip_cr(p.take(e))] + (lines(r) + lines(b)) =~= (seq![strip_cr(p.take(e))]
            + lines(r)) + lines(b));
    }
}

/// A line `m` ended by `'\n'` after text that is empty or ends with `'\n'`
/// is the last line.
proof fn lemma_lines_last(a: Seq<char>, m: Seq<char>)
    requires
        a.len() == 0 || a.last() == '\n',
        !m.contains('\n'),
    ensures
        lines(a + m + seq!['\n']) == lines(a) + seq![strip_cr(m)],
{
    let t = m + seq!['\n'];
    lemma_line_end_bounds(t, 0);
    let e = line_end(t, 0);
    assert(t[m.len() as int] == '\n');
    if e < m.len() {
        assert(t[e] == m[e]);
        assert(m.contains(m[e]));
    }
    assert(e == m.len());
    assert(t.take(e) =~= m);
    assert(t.skip(e + 1) =~= Seq::<char>::empty());
    assert(lines(t.skip(e + 1)) =~= Seq::<Seq<char>>::empty());
    assert(lines(t) == seq![strip_cr(t.take(e))] + lines(t.skip(e + 1)));
    assert(lines(t) =~= seq![strip_cr(m)]);
    if a.len() == 0 {
        assert(a + m + seq!['\n'] =~= t);
        assert(lines(a) =~= Seq::<Seq<char>>::empty());
        assert(lines(a) + seq![strip_cr(m)] =~= seq![strip_cr(m)]);
    } else {
        assert(a + m + seq!['\n'] =~= a + t);
        lemma_lines_append(a, t);
    }
}

/// Scanning stops at a header-closing line: lines after it are never read.
proof fn lemma_scan_stops(ls: Seq<Seq<char>>, rest: Seq<Seq<char>>, out: Option<usize>, inn: Option<usize>)
    requires
        ls.len() > 0,
        closes_header(strip_blanks(ls.last())),
    ensures
        scan_lines(ls + rest, out, inn) == scan_lines(ls, out, inn),
    decreases ls.len(),
{
    assert((ls + rest)[0] == ls[0]);
    let c = strip_blanks(ls[0]);
    if !closes_header(c) {
        assert(ls.len() > 1);
        let next = assign_counts(c, out, inn);
        assert((ls + rest).drop_first() =~= ls.drop_first() + rest);
        assert(ls.drop_first().last() == ls.last());
        lemma_scan_stops(ls.drop_first(), rest, next.0, next.1);
    }
}

/// Nothing after the header matters: once a line closes the header (it
/// starts with `instr` and holds no `'='`, blanks removed), whatever text
/// follows that line leaves the settings as they are. Here `h` is the text
/// before that line (empty or ending with `'\n'`), `l` the line and `b` what
/// follows; the line starts the text after trimming, or `h` holds more than
/// whitespace.
pub proof fn lemma_rest_after_header_ignored(h: Seq<char>, l: Seq<char>, b: Seq<char>)
    requires
        h.len() == 0 || h.last() == '\n',
        !l.contains('\n'),
        closes_header(strip_blanks(strip_cr(l))),
        (exists|k: int| 0 <= k < h.len() && !is_whitespace(#[trigger] h[k])) || (l.len() > 0
            && !is_whitespace(l[0])),
    ensures
        settings_of_text(h + l + seq!['\n'] + b) == settings_of_text(h + l + seq!['\n']),
{
    let x = h + l + seq!['\n'];
    lemma_trim_count(x);
    let k0: int = if exists|k: int| 0 <= k < h.len() && !is_whitespace(#[trigger] h[k]) {
        choose|k: int| 0 <= k < h.len() && !is_whitespace(#[trigger] h[k])
    } else {
        h.len() as int
    };
    assert(x[k0] == (if k0 < h.len() { h[k0] } else { l[0] }));
    assert(!is_whitespace(x[k0]));
    let tc = trim_count(x);
    assert(tc <= k0);
    lemma_trim_count_append(x, b);
    lemma_trim_count(x + b);
    assert((x + b).skip(tc as int) =~= x.skip(tc as int) + b);
    let a = h.skip(tc as int);
    assert(x.skip(tc as int) =~= a + l + seq!['\n']);
    if tc < h.len() {
        assert(a.last() == h.last());
    }
    let p = a + l + seq!['\n'];
    assert(p.last() == '\n');
    lemma_lines_append(p, b);
    lemma_lines_last(a, l);
    let ls = lines(p);
    assert(ls.last() == strip_cr(l));
    lemma_scan_stops(ls, lines(b), None, None);
    assert(h + l + seq!['\n'] + b =~= x + b);
}

/// A line ended by `'\n'` and followed by more text is the first line.
proof fn lemma_lines_first(l: Seq<char>, b: Seq<char>)
    requires
        !l.contains('\n'),
    ensures
        lines(l + seq!['\n'] + b) == seq![strip_cr(l)] + lines(b),
{
    let e = Seq::<char>::empty();
    lemma_lines_last(e, l);
    assert(e + l + seq!['\n'] =~= l + seq!['\n']);
    assert(lines(e) =~= Seq::<Seq<char>>::empty());
    assert(lines(e) + seq![strip_cr(l)] =~= seq![strip_cr(l)]);
    lemma_lines_append(l + seq!['\n'], b);
}

/// Text that holds more than whitespace and ends with `'\n'`, followed by
/// more text: trimming stops inside it, and the lines of what follows come
/// after its own.
proof fn lemma_header_then(h: Seq<char>, y: Seq<char>)
    requires
        h.len() > 0,
        h.last() == '\n',
        exists|k: int| 0 <= k < h.len() && !is_whitespace(#[trigger] h[k]),
    ensures
        trim_count(h) < h.len(),
        lines(trim_start(h + y)) == lines(h.skip(trim_count(h) as int)) + lines(y),
{
    lemma_trim_count(h);
    let k0 = choose|k: int| 0 <= k < h.len() && !is_whitespace(#[trigger] h[k]);
    let c = trim_count(h);
    if c > k0 {
        assert(is_whitespace(h[k0]));
    }
    assert(c < h.len());
    lemma_trim_count_append(h, y);
    lemma_trim_count(h + y);
    let p = h.skip(c as int);
    assert((h + y).skip(c as int) =~= p + y);
    assert(p.last() == h.last());
    lemma_lines_append(p, y);
}

/// Scanning passes over a line that is empty once blanks are removed.
proof fn lemma_scan_skips_empty(
    a: Seq<Seq<char>>,
    e: Seq<char>,
    b: Seq<Seq<char>>,
    out: Option<usize>,
    inn: Option<usize>,
)
    requires
        strip_blanks(e).len() == 0,
    ensures
        scan_lines(a + seq![e] + b, out, inn) == scan_lines(a + b, out, inn),
    decreases a.len(),
{
    let x = a + seq![e] + b;
    if a.len() == 0 {
        assert(x[0] == e);
        assert(x.drop_first() =~= b);
        assert(a + b =~= b);
        let c = strip_blanks(e);
        assert(!closes_header(c));
        assert(!(exists|i: int| single_eq_at(c, i)));
        assert(assign_counts(c, out, inn) == (out, inn));
    } else {
        assert(x[0] == a[0]);
        assert((a + b)[0] == a[0]);
        let c = strip_blanks(a[0]);
        if !closes_header(c) {
            let next = assign_counts(c, out, inn);
            assert(x.drop_first() =~= a.drop_first() + seq![e] + b);
            assert((a + b).drop_first() =~= a.drop_first() + b);
            lemma_scan_skips_empty(a.drop_first(), e, b, next.0, next.1);
        }
    }
}

/// A blank line does not end the header: inserting a line that holds only
/// spaces and tabs (an empty line among them) into an orchestra header, after
/// text that holds more than whitespace, leaves the settings as they are.
/// Only a line that starts with `instr` and holds no `'='` ends the header.
pub proof fn lemma_blank_line_ignored(h: Seq<char>, l: Seq<char>, t: Seq<char>)
    requires
        h.len() > 0,
        h.last() == '\n',
        exists|k: int| 0 <= k < h.len() && !is_whitespace(#[trigger] h[k]),
        !l.contains('\n'),
        strip_blanks(strip_cr(l)).len() == 0,
    ensures
        settings_of_text(h + l + seq!['\n'] + t) == settings_of_text(h + t),
{
    let y = l + seq!['\n'] + t;
    lemma_header_then(h, y);
    lemma_header_then(h, t);
    lemma_lines_first(l, t);
    let a = lines(h.skip(trim_count(h) as int));
    assert(h + l + seq!['\n'] + t =~= h + y);
    assert(a + lines(y) =~= a + seq![strip_cr(l)] + lines(t));
    lemma_scan_skips_empty(a, strip_cr(l), lines(t), None, None);
}

/// A header line `name=<value>` (blanks removed) with a single `'='`.
pub open spec fn assigns(c: Seq<char>, name: Seq<char>) -> bool {
    exists|i: int| single_eq_at(c, i) && c.take(i) == name
}

proof fn lemma_single_eq_unique(c: Seq<char>, i: int, j: int)
    requires
        single_eq_at(c, i),
        single_eq_at(c, j),
    ensures
        i == j,
{
    if i != j {
        assert(c[j] != '=');
    }
}

/// An `nchnls` line sets the output count only: the input count stays as it
/// was, and the output count is the same whatever the input count was.
pub proof fn lemma_nchnls_keeps_input(c: Seq<char>, out: Option<usize>, inn: Option<usize>, inn2: Option<usize>)
    requires
        assigns(c, nchnls_word()),
    ensures
        assign_counts(c, out, inn).1 == inn,
        assign_counts(c, out, inn).0 == assign_counts(c, out, inn2).0,
{
    let j = choose|j: int| single_eq_at(c, j) && c.take(j) == nchnls_word();
    let i = choose|i: int| single_eq_at(c, i);
    lemma_single_eq_unique(c, i, j);
    assert(nchnls_word().len() != nchnls_i_word().len());
}

/// An `nchnls_i` line sets the input count only: the output count stays as
/// it was, and the input count is the same whatever the output count was.
pub proof fn lemma_nchnls_i_keeps_output(c: Seq<char>, out: Option<usize>, inn: Option<usize>, out2: Option<usize>)
    requires
        assigns(c, nchnls_i_word()),
    ensures
        assign_counts(c, out, inn).0 == out,
        assign_counts(c, out, inn).1 == assign_counts(c, out2, inn).1,
{
    let j = choose|j: int| single_eq_at(c, j) && c.take(j) == nchnls_i_word();
    let i = choose|i: int| single_eq_at(c, i);
    lemma_single_eq_unique(c, i, j);
    assert(nchnls_word().len() != nchnls_i_word().len());
}

/// Scanning an `nchnls` line and an `nchnls_i` line gives the same counts in
/// either order.
proof fn lemma_scan_swap(
    a: Seq<Seq<char>>,
    e1: Seq<char>,
    e2: Seq<char>,
    b: Seq<Seq<char>>,
    out: Option<usize>,
    inn: Option<usize>,
)
    requires
        assigns(strip_blanks(e1), nchnls_word()),
        assigns(strip_blanks(e2), nchnls_i_word()),
    ensures
        scan_lines(a + seq![e1, e2] + b, out, inn) == scan_lines(a + seq![e2, e1] + b, out, inn),
    decreases a.len(),
{
    let x = a + seq![e1, e2] + b;
    let y = a + seq![e2, e1] + b;
    if a.len() == 0 {
        let c1 = strip_blanks(e1);
        let c2 = strip_blanks(e2);
        let i1 = choose|i: int| single_eq_at(c1, i) && c1.take(i) == nchnls_word();
        let i2 = choose|i: int| single_eq_at(c2, i) && c2.take(i) == nchnls_i_word();
        assert(c1[i1] == '=' && c1.contains('='));
        assert(c2[i2] == '=' && c2.contains('='));
        assert(x[0] == e1 && x[1] == e2);
        assert(y[0] == e2 && y[1] == e1);
        let s1 = assign_counts(c1, out, inn);
        let s2 = assign_counts(c2, out, inn);
        lemma_nchnls_keeps_input(c1, out, inn, inn);
        lemma_nchnls_i_keeps_output(c2, out, inn, out);
        lemma_nchnls_i_keeps_output(c2, s1.0, s1.1, out);
        lemma_nchnls_keeps_input(c1, s2.0, s2.1, inn);
        assert(x.drop_first()[0] == e2);
        assert(y.drop_first()[0] == e1);
        assert(x.drop_first().drop_first() =~= b);
        assert(y.drop_first().drop_first() =~= b);
        assert(scan_lines(x, out, inn) == scan_lines(x.drop_first(), s1.0, s1.1));
        assert(scan_lines(x.drop_first(), s1.0, s1.1) == scan_lines(
            b,
            assign_counts(c2, s1.0, s1.1).0,
            assign_counts(c2, s1.0, s1.1).1,
        ));
        assert(scan_lines(y, out, inn) == scan_lines(y.drop_first(), s2.0, s2.1));
        assert(scan_lines(y.drop_first(), s2.0, s2.1) == scan_lines(
            b,
            assign_counts(c1, s2.0, s2.1).0,
            assign_counts(c1, s2.0, s2.1).1,
        ));
    } else {
        assert(x[0] == a[0]);
        assert(y[0] == a[0]);
        let c = strip_blanks(a[0]);
        if !closes_header(c) {
            let next = assign_counts(c, out, inn);
            assert(x.drop_first() =~= a.drop_first() + seq![e1, e2] + b);
            assert(y.drop_first() =~= a.drop_first() + seq![e2, e1] + b);
            lemma_scan_swap(a.drop_first(), e1, e2, b, next.0, next.1);
        }
    }
}

/// The order of the `nchnls` and `nchnls_i` lines in the header does not
/// matter: an `nchnls` line leaves the input count alone and an `nchnls_i`
/// line leaves the output count alone, so swapping two such adjacent lines,
/// after text that holds more than whitespace, gives the same settings.
pub proof fn lemma_channel_lines_commute(h: Seq<char>, l1: Seq<char>, l2: Seq<char>, t: Seq<char>)
    requires
        h.len() > 0,
        h.last() == '\n',
        exists|k: int| 0 <= k < h.len() && !is_whitespace(#[trigger] h[k]),
        !l1.contains('\n'),
        !l2.contains('\n'),
        assigns(strip_blanks(strip_cr(l1)), nchnls_word()),
        assigns(strip_blanks(strip_cr(l2)), nchnls_i_word()),
    ensures
        settings_of_text(h + l1 + seq!['\n'] + l2 + seq!['\n'] + t) == settings_of_text(
            h + l2 + seq!['\n'] + l1 + seq!['\n'] + t,
        ),
{
    let y1 = l1 + seq!['\n'] + (l2 + seq!['\n'] + t);
    let y2 = l2 + seq!['\n'] + (l1 + seq!['\n'] + t);
    lemma_header_then(h, y1);
    lemma_header_then(h, y2);
    lemma_lines_first(l1, l2 + seq!['\n'] + t);
    lemma_lines_first(l2, t);
    lemma_lines_first(l2, l1 + seq!['\n'] + t);
    lemma_lines_first(l1, t);
    let a = lines(h.skip(trim_count(h) as int));
    let s1 = strip_cr(l1);
    let s2 = strip_cr(l2);
    assert(h + l1 + seq!['\n'] + l2 + seq!['\n'] + t =~= h + y1);
    assert(h + l2 + seq!['\n'] + l1 + seq!['\n'] + t =~= h + y2);
    assert(a + lines(y1) =~= a + seq![s1, s2] + lines(t));
    assert(a + lines(y2) =~= a + seq![s2, s1] + lines(t));
    lemma_scan_swap(a, s1, s2, lines(t), None, None);
}

} // verus!
