//! Reading S3 listings: the XML events of a listing body, the occupied
//! volume directories of a site, and the chunk names of one directory.

use vstd::prelude::*;
use vstd::string::StrSliceExecFns;
use vstd::string::StringExecFns;
use xml::reader::{EventReader, XmlEvent};
use crate::chunk::{Chunk, name_nanos, nexrad_chunk_fields};
use crate::time::spec_moment;

verus! {

/// One event of an XML listing, reduced to what a listing reader looks at.
pub enum XmlItem {
    /// An element opens; the local part of its name.
    Start(String),
    /// Character data.
    Text(String),
    /// An element closes; the local part of its name.
    End(String),
    /// Any other event (declarations, whitespace, comments, CDATA, ...).
    Other,
}

/// The view of an [`XmlItem`].
pub enum XmlToken {
    Start(Seq<char>),
    Text(Seq<char>),
    End(Seq<char>),
    Other,
}

impl View for XmlItem {
    type V = XmlToken;

    open spec fn view(&self) -> XmlToken {
        match self {
            XmlItem::Start(name) => XmlToken::Start(name@),
            XmlItem::Text(text) => XmlToken::Text(text@),
            XmlItem::End(name) => XmlToken::End(name@),
            XmlItem::Other => XmlToken::Other,
        }
    }
}

/// The views of a sequence of events.
pub open spec fn tokens(items: Seq<XmlItem>) -> Seq<XmlToken> {
    items.map_values(|item: XmlItem| item@)
}

/// The view of a list of events or of an error text.
pub open spec fn events_view(r: Result<Vec<XmlItem>, String>) -> Result<Seq<XmlToken>, Seq<char>> {
    match r {
        Ok(items) => Ok(tokens(items@)),
        Err(e) => Err(e@),
    }
}

/// What the xml-rs `EventReader` makes of a body: every event up to the end
/// of the document, or the text of the first error it reports.
pub uninterp spec fn xml_reader_events(body: Seq<char>) -> Result<Seq<XmlToken>, Seq<char>>;

/// Runs the xml-rs `EventReader` over `body` and collects its events, stopping
/// at the first error, whose display text it returns. The result is a
/// function of the body, named `xml_reader_events`; how XML is parsed is not
/// stated.
#[verifier::external_body]
fn read_xml_events(body: &str) -> (r: Result<Vec<XmlItem>, String>)
    ensures
        events_view(r) == xml_reader_events(body@),
{
    EventReader::new(body.as_bytes()).into_iter().map(|event| match event {
        Ok(XmlEvent::StartElement { name, .. }) => Ok(XmlItem::Start(name.local_name)),
        Ok(XmlEvent::EndElement { name }) => Ok(XmlItem::End(name.local_name)),
        Ok(XmlEvent::Characters(text)) => Ok(XmlItem::Text(text)),
        Ok(_) => Ok(XmlItem::Other),
        Err(e) => Err(e.to_string()),
    }).collect()
}

/// `a` and `b` hold the same characters.
pub fn text_equals(a: &str, b: &str) -> (r: bool)
    ensures
        r == (a@ == b@),
{
    let n = a.unicode_len();
    if n != b.unicode_len() {
        return false;
    }
    let mut i: usize = 0;
    while i < n
        invariant
            n == a@.len(),
            n == b@.len(),
            0 <= i <= n,
            forall|j: int| 0 <= j < i ==> a@[j] == b@[j],
        decreases n - i,
    {
        if a.get_char(i) != b.get_char(i) {
            return false;
        }
        i = i + 1;
    }
    assert(a@ =~= b@);
    true
}

/// `c` is an ASCII decimal digit.
pub open spec fn is_digit(c: char) -> bool {
    '0' <= c <= '9'
}

/// The value of the ASCII digit `c`.
pub open spec fn digit_value(c: char) -> nat {
    (c as int - '0' as int) as nat
}

/// The decimal value of a string of digits.
pub open spec fn decimal_value(d: Seq<char>) -> nat
    decreases d.len(),
{
    if d.len() == 0 {
        0
    } else {
        decimal_value(d.drop_last()) * 10 + digit_value(d.last())
    }
}

/// The digits of a decimal numeral as `str::parse::<usize>` reads it: an
/// optional leading `+`, then the digits.
pub open spec fn numeral_digits(s: Seq<char>) -> Seq<char> {
    if s.len() > 0 && s[0] == '+' {
        s.drop_first()
    } else {
        s
    }
}

/// The volume number a directory name holds: a decimal numeral, as
/// `str::parse::<usize>` reads one, whose value lies in `1..=999`.
pub open spec fn spec_volume_number(s: Seq<char>) -> Option<usize> {
    let d = numeral_digits(s);
    if d.len() > 0 && (forall|i: int| 0 <= i < d.len() ==> is_digit(#[trigger] d[i])) && 1
        <= decimal_value(d) <= 999 {
        Some(decimal_value(d) as usize)
    } else {
        None
    }
}

proof fn lemma_decimal_value_grows(d: Seq<char>, c: char)
    requires
        is_digit(c),
    ensures
        decimal_value(d.push(c)) == decimal_value(d) * 10 + digit_value(c),
        decimal_value(d.push(c)) >= decimal_value(d) * 10,
{
    assert(d.push(c).drop_last() =~= d);
}

/// The volume number the characters `from..to` of `s` spell, if any.
pub fn volume_number(s: &str, from: usize, to: usize) -> (r: Option<usize>)
    requires
        from <= to <= s@.len(),
    ensures
        r == spec_volume_number(s@.subrange(from as int, to as int)),
{
    let ghost t = s@.subrange(from as int, to as int);
    let mut start = from;
    if from < to && s.get_char(from) == '+' {
        start = from + 1;
    }
    let ghost d = numeral_digits(t);
    assert(d =~= s@.subrange(start as int, to as int));
    if start == to {
        return None;
    }
    let mut value: usize = 0;
    let mut i = start;
    while i < to
        invariant
            start <= i <= to <= s@.len(),
            d == s@.subrange(start as int, to as int),
            d == numeral_digits(s@.subrange(from as int, to as int)),
            forall|j: int| 0 <= j < i - start ==> is_digit(#[trigger] d[j]),
            value <= 1000,
            value == if decimal_value(d.take(i - start)) >= 1000 {
                1000
            } else {
                decimal_value(d.take(i - start))
            },
        decreases to - i,
    {
        let c = s.get_char(i);
        if !('0' <= c && c <= '9') {
            assert(d[i - start] == c);
            assert(!is_digit(d[i - start]));
            assert(!(forall|j: int| 0 <= j < d.len() ==> is_digit(#[trigger] d[j])));
            return None;
        }
        let digit = (c as u32 - '0' as u32) as usize;
        proof {
            assert(d.take(i - start + 1) =~= d.take(i - start).push(c));
            lemma_decimal_value_grows(d.take(i - start), c);
        }
        if value >= 1000 {
            value = 1000;
        } else {
            value = value * 10 + digit;
            if value > 1000 {
                value = 1000;
            }
        }
        i = i + 1;
    }
    assert(d.take(to - start) =~= d);
    if 1 <= value && value <= 999 {
        Some(value)
    } else {
        None
    }
}


/// The volume number in a listed directory prefix `site/NNN/`.
pub open spec fn spec_volume_of_prefix(value: Seq<char>, site: Seq<char>) -> Option<usize> {
    let n = site.len() as int;
    if value.len() >= n + 2 && value.take(n) == site && value[n] == '/' && value.last() == '/' {
        spec_volume_number(value.subrange(n + 1, value.len() - 1))
    } else {
        None
    }
}

/// The volume number in a listed directory prefix `site/NNN/`, if it names a
/// directory of `site` in `1..=999`.
pub fn volume_of_prefix(value: &str, site: &str) -> (r: Option<usize>)
    ensures
        r == spec_volume_of_prefix(value@, site@),
{
    let len = value.unicode_len();
    let n = site.unicode_len();
    if len < 2 || len - 2 < n {
        return None;
    }
    let mut i: usize = 0;
    while i < n
        invariant
            n == site@.len(),
            len == value@.len(),
            n + 2 <= len,
            0 <= i <= n,
            forall|j: int| 0 <= j < i ==> value@[j] == site@[j],
        decreases n - i,
    {
        if value.get_char(i) != site.get_char(i) {
            assert(value@.take(n as int)[i as int] != site@[i as int]);
            return None;
        }
        i = i + 1;
    }
    assert(value@.take(n as int) =~= site@);
    if value.get_char(n) != '/' || value.get_char(len - 1) != '/' {
        return None;
    }
    volume_number(value, n + 1, len - 1)
}

/// The state of a reader of a volume listing after some events.
pub struct VolumeScan {
    /// Inside a `CommonPrefixes` element.
    pub in_common: bool,
    /// The text of the `Prefix` element being read inside `CommonPrefixes`.
    pub prefix: Option<Seq<char>>,
    /// The text of the `IsTruncated` element, once one has opened.
    pub truncated: Option<Seq<char>>,
    /// Inside an `IsTruncated` element.
    pub reading_truncated: bool,
    /// Volume numbers read so far, in listing order.
    pub volumes: Seq<usize>,
}

/// The state of a reader of a volume listing before any event.
pub open spec fn volume_scan_start() -> VolumeScan {
    VolumeScan {
        in_common: false,
        prefix: None,
        truncated: None,
        reading_truncated: false,
        volumes: Seq::empty(),
    }
}

/// How one event moves the reader of a volume listing of `site`.
pub open spec fn volume_scan_step(st: VolumeScan, tok: XmlToken, site: Seq<char>) -> VolumeScan {
    match tok {
        XmlToken::Start(name) => if name == "CommonPrefixes"@ {
            VolumeScan { in_common: true, ..st }
        } else if name == "Prefix"@ && st.in_common {
            VolumeScan { prefix: Some(Seq::empty()), ..st }
        } else if name == "IsTruncated"@ {
            VolumeScan { truncated: Some(Seq::empty()), reading_truncated: true, ..st }
        } else {
            st
        },
        XmlToken::Text(value) => match st.prefix {
            Some(p) => VolumeScan { prefix: Some(p + value), ..st },
            None => if st.reading_truncated {
                VolumeScan {
                    truncated: match st.truncated {
                        Some(t) => Some(t + value),
                        None => None,
                    },
                    ..st
                }
            } else {
                st
            },
        },
        XmlToken::End(name) => if name == "Prefix"@ && st.in_common {
            VolumeScan {
                prefix: None,
                volumes: match st.prefix {
                    Some(p) => match spec_volume_of_prefix(p, site) {
                        Some(v) => st.volumes.push(v),
                        None => st.volumes,
                    },
                    None => st.volumes,
                },
                ..st
            }
        } else if name == "CommonPrefixes"@ {
            VolumeScan { in_common: false, ..st }
        } else if name == "IsTruncated"@ {
            VolumeScan { reading_truncated: false, ..st }
        } else {
            st
        },
        XmlToken::Other => st,
    }
}

/// The state of a reader of a volume listing of `site` after `toks`.
pub open spec fn volume_scan(toks: Seq<XmlToken>, site: Seq<char>) -> VolumeScan
    decreases toks.len(),
{
    if toks.len() == 0 {
        volume_scan_start()
    } else {
        volume_scan_step(volume_scan(toks.drop_last(), site), toks.last(), site)
    }
}

/// `r` lists the numbers of `s` once each, in increasing order.
pub open spec fn is_sorted_set_of(r: Seq<usize>, s: Seq<usize>) -> bool {
    &&& forall|i: int, j: int| 0 <= i < j < r.len() ==> r[i] < r[j]
    &&& forall|x: usize| r.contains(x) <==> s.contains(x)
}

/// The text a `Some` string holds.
pub open spec fn opt_text(o: Option<String>) -> Option<Seq<char>> {
    match o {
        Some(t) => Some(t@),
        None => None,
    }
}

/// `text` followed by `more`, for an optional text.
fn extend_text(text: Option<String>, more: &str) -> (r: Option<String>)
    ensures
        opt_text(r) == match opt_text(text) {
            Some(t) => Some(t + more@),
            None => None,
        },
{
    match text {
        Some(t) => Some(t.concat(more)),
        None => None,
    }
}

/// Adds `v` to a strictly increasing list, unless it is there already.
fn insert_sorted_distinct(out: &mut Vec<usize>, v: usize)
    requires
        forall|i: int, j: int| 0 <= i < j < old(out)@.len() ==> old(out)@[i] < old(out)@[j],
    ensures
        forall|i: int, j: int| 0 <= i < j < final(out)@.len() ==> final(out)@[i] < final(out)@[j],
        forall|x: usize| final(out)@.contains(x) <==> (old(out)@.contains(x) || x == v),
{
    let mut p: usize = 0;
    while p < out.len() && out[p] < v
        invariant
            0 <= p <= out.len(),
            out@ == old(out)@,
            forall|j: int| 0 <= j < p ==> out@[j] < v,
        decreases out.len() - p,
    {
        p = p + 1;
    }
    if p < out.len() && out[p] == v {
        assert(out@[p as int] == v);
        assert(old(out)@.contains(v));
        return;
    }
    let ghost before = out@;
    assert(before == old(out)@);
    out.insert(p, v);
    assert forall|x: usize| out@.contains(x) <==> (before.contains(x) || x == v) by {
        if out@.contains(x) {
            let k = choose|k: int| 0 <= k < out@.len() && out@[k] == x;
            if k < p {
                assert(before[k] == x);
            } else if k > p {
                assert(before[k - 1] == x);
            }
        }
        if before.contains(x) {
            let k = choose|k: int| 0 <= k < before.len() && before[k] == x;
            if k < p {
                assert(out@[k] == x);
            } else {
                assert(out@[k + 1] == x);
            }
        }
        if x == v {
            assert(out@[p as int] == v);
        }
    }
    assert forall|x: usize| out@.contains(x) <==> (old(out)@.contains(x) || x == v) by {
        assert(out@.contains(x) <==> (before.contains(x) || x == v));
    }
}

/// The message for a volume listing that is cut short.
pub open spec fn truncated_listing_message() -> Seq<char> {
    "volume listing is truncated or missing IsTruncated"@
}

/// The occupied volume directories that the events of a volume listing of
/// `site` name: every `CommonPrefixes/Prefix` of the form `site/NNN/` with
/// `NNN` in `1..=999`, once each and in increasing order. A listing whose
/// `IsTruncated` is not exactly `false` (or absent) is refused, since a
/// directory could be missing from it.
pub fn volumes_from_events(events: &Vec<XmlItem>, site: &str) -> (r: Result<Vec<usize>, String>)
    ensures
        volume_scan(tokens(events@), site@).truncated != Some("false"@) ==> (r matches Err(e)
            && e@ == truncated_listing_message()),
        volume_scan(tokens(events@), site@).truncated == Some("false"@) ==> (r matches Ok(v)
            && is_sorted_set_of(v@, volume_scan(tokens(events@), site@).volumes)),
{
    let ghost toks = tokens(events@);
    let mut in_common = false;
    let mut prefix: Option<String> = None;
    let mut truncated: Option<String> = None;
    let mut reading_truncated = false;
    let mut volumes: Vec<usize> = Vec::new();
    let mut i: usize = 0;
    while i < events.len()
        invariant
            0 <= i <= events.len(),
            toks == tokens(events@),
            ({
                let st = volume_scan(toks.take(i as int), site@);
                &&& in_common == st.in_common
                &&& opt_text(prefix) == st.prefix
                &&& opt_text(truncated) == st.truncated
                &&& reading_truncated == st.reading_truncated
                &&& volumes@ == st.volumes
            }),
        decreases events.len() - i,
    {
        assert(toks.take(i + 1).drop_last() =~= toks.take(i as int));
        assert(toks.take(i + 1).last() == events@[i as int]@);
        match &events[i] {
            XmlItem::Start(name) => {
                if text_equals(name.as_str(), "CommonPrefixes") {
                    in_common = true;
                } else if text_equals(name.as_str(), "Prefix") && in_common {
                    prefix = Some(String::new());
                } else if text_equals(name.as_str(), "IsTruncated") {
                    truncated = Some(String::new());
                    reading_truncated = true;
                }
            },
            XmlItem::Text(value) => {
                if prefix.is_some() {
                    prefix = extend_text(prefix, value.as_str());
                } else if reading_truncated {
                    truncated = extend_text(truncated, value.as_str());
                }
            },
            XmlItem::End(name) => {
                if text_equals(name.as_str(), "Prefix") && in_common {
                    let taken = prefix.take();
                    match taken {
                        Some(value) => {
                            match volume_of_prefix(value.as_str(), site) {
                                Some(number) => {
                                    volumes.push(number);
                                },
                                None => {},
                            }
                        },
                        None => {},
                    }
                } else if text_equals(name.as_str(), "CommonPrefixes") {
                    in_common = false;
                } else if text_equals(name.as_str(), "IsTruncated") {
                    reading_truncated = false;
                }
            },
            XmlItem::Other => {},
        }
        i = i + 1;
    }
    assert(toks.take(events.len() as int) =~= toks);
    let complete = match &truncated {
        Some(t) => text_equals(t.as_str(), "false"),
        None => false,
    };
    if !complete {
        return Err("volume listing is truncated or missing IsTruncated".to_owned());
    }
    let mut out: Vec<usize> = Vec::new();
    let mut j: usize = 0;
    while j < volumes.len()
        invariant
            0 <= j <= volumes.len(),
            forall|a: int, b: int| 0 <= a < b < out@.len() ==> out@[a] < out@[b],
            forall|x: usize| out@.contains(x) <==> volumes@.take(j as int).contains(x),
        decreases volumes.len() - j,
    {
        insert_sorted_distinct(&mut out, volumes[j]);
        proof {
            let t = volumes@.take(j as int);
            assert(volumes@.take(j + 1) =~= t.push(volumes@[j as int]));
            assert forall|x: usize| t.push(volumes@[j as int]).contains(x) <==> (t.contains(x)
                || x == volumes@[j as int]) by {
                if t.push(volumes@[j as int]).contains(x) {
                    let k = choose|k: int|
                        0 <= k < t.len() + 1 && t.push(volumes@[j as int])[k] == x;
                    if k < t.len() {
                        assert(t[k] == x);
                    }
                }
                if t.contains(x) {
                    let k = choose|k: int| 0 <= k < t.len() && t[k] == x;
                    assert(t.push(volumes@[j as int])[k] == x);
                }
                if x == volumes@[j as int] {
                    assert(t.push(volumes@[j as int])[t.len() as int] == x);
                }
            }
        }
        j = j + 1;
    }
    assert(volumes@.take(volumes.len() as int) =~= volumes@);
    Ok(out)
}


/// Every volume number a volume listing yields is a directory of the ring,
/// `1..=999`: expired or foreign prefixes such as `site/0/` never count.
pub proof fn lemma_volume_scan_stays_on_ring(toks: Seq<XmlToken>, site: Seq<char>)
    ensures
        forall|i: int|
            0 <= i < volume_scan(toks, site).volumes.len() ==> 1 <= #[trigger] volume_scan(
                toks,
                site,
            ).volumes[i] <= 999,
    decreases toks.len(),
{
    if toks.len() > 0 {
        lemma_volume_scan_stays_on_ring(toks.drop_last(), site);
    }
}

/// The outcome of reading a volume listing of `site` from the events `toks`.
pub open spec fn volume_listing_outcome(
    r: Result<Vec<usize>, String>,
    toks: Seq<XmlToken>,
    site: Seq<char>,
) -> bool {
    let st = volume_scan(toks, site);
    &&& st.truncated != Some("false"@) ==> (r matches Err(e) && e@ == truncated_listing_message())
    &&& st.truncated == Some("false"@) ==> (r matches Ok(v) && is_sorted_set_of(v@, st.volumes))
}

/// The occupied volume directories of `site` in the body of a delimited
/// listing. The delimiter rolls all keys in a volume up to one
/// `CommonPrefixes` item, so all occupied directories fit in one page.
pub fn parse_volumes(body: &str, site: &str) -> (r: Result<Vec<usize>, String>)
    ensures
        xml_reader_events(body@) matches Err(e) ==> (r matches Err(m) && m@
            == "reading volume listing: "@ + e),
        xml_reader_events(body@) matches Ok(toks) ==> volume_listing_outcome(r, toks, site@),
{
    match read_xml_events(body) {
        Err(e) => Err("reading volume listing: ".to_owned().concat(e.as_str())),
        Ok(events) => volumes_from_events(&events, site),
    }
}

/// The part of a key after its last `/`; the whole key if it holds none.
pub open spec fn last_segment(s: Seq<char>) -> Seq<char>
    decreases s.len(),
{
    if s.len() == 0 {
        s
    } else if s.last() == '/' {
        Seq::empty()
    } else {
        last_segment(s.drop_last()).push(s.last())
    }
}

proof fn lemma_last_segment_after(s: Seq<char>, p: int)
    requires
        -1 <= p < s.len(),
        p >= 0 ==> s[p] == '/',
        forall|j: int| p < j < s.len() ==> s[j] != '/',
    ensures
        last_segment(s) == s.subrange(p + 1, s.len() as int),
    decreases s.len(),
{
    if s.len() == 0 {
    } else if p == s.len() - 1 {
        assert(s.subrange(p + 1, s.len() as int) =~= Seq::<char>::empty());
    } else {
        lemma_last_segment_after(s.drop_last(), p);
        assert(s.subrange(p + 1, s.len() as int) =~= s.drop_last().subrange(
            p + 1,
            s.len() - 1,
        ).push(s.last()));
    }
}

/// The name part of a listed key: what follows its last `/`.
pub fn key_name(key: &str) -> (r: String)
    ensures
        r@ == last_segment(key@),
{
    let n = key.unicode_len();
    let mut start: usize = 0;
    let mut i: usize = 0;
    while i < n
        invariant
            n == key@.len(),
            0 <= start <= i <= n,
            start > 0 ==> key@[start - 1] == '/',
            forall|j: int| start <= j < i ==> key@[j] != '/',
        decreases n - i,
    {
        if key.get_char(i) == '/' {
            start = i + 1;
        }
        i = i + 1;
    }
    proof {
        lemma_last_segment_after(key@, start - 1);
    }
    key.substring_char(start, n).to_owned()
}

/// The state of a reader of a chunk listing after some events.
pub struct KeyScan {
    /// Inside a `Key` element.
    pub in_key: bool,
    /// The text of the `Key` element being read.
    pub key: Option<Seq<char>>,
    /// The names of the keys read so far, in listing order.
    pub names: Seq<Seq<char>>,
}

/// How one event moves the reader of a chunk listing.
pub open spec fn key_scan_step(st: KeyScan, tok: XmlToken) -> KeyScan {
    match tok {
        XmlToken::Start(name) => if name == "Key"@ {
            KeyScan { in_key: true, key: Some(Seq::empty()), ..st }
        } else {
            st
        },
        XmlToken::Text(value) => if st.in_key {
            KeyScan {
                key: match st.key {
                    Some(k) => Some(k + value),
                    None => None,
                },
                ..st
            }
        } else {
            st
        },
        XmlToken::End(name) => if name == "Key"@ {
            KeyScan {
                in_key: false,
                key: None,
                names: match st.key {
                    Some(k) => st.names.push(last_segment(k)),
                    None => st.names,
                },
            }
        } else {
            st
        },
        XmlToken::Other => st,
    }
}

/// The state of a reader of a chunk listing after `toks`.
pub open spec fn key_scan(toks: Seq<XmlToken>) -> KeyScan
    decreases toks.len(),
{
    if toks.len() == 0 {
        KeyScan { in_key: false, key: None, names: Seq::empty() }
    } else {
        key_scan_step(key_scan(toks.drop_last()), toks.last())
    }
}

/// The texts of a list of strings.
pub open spec fn texts(v: Seq<String>) -> Seq<Seq<char>> {
    v.map_values(|t: String| t@)
}

/// The names of the keys in the events of a chunk listing, in order: for
/// each `Key` element, the part of its text after the last `/`.
pub fn key_names_from_events(events: &Vec<XmlItem>) -> (names: Vec<String>)
    ensures
        texts(names@) == key_scan(tokens(events@)).names,
{
    let ghost toks = tokens(events@);
    let mut in_key = false;
    let mut key: Option<String> = None;
    let mut names: Vec<String> = Vec::new();
    let mut i: usize = 0;
    while i < events.len()
        invariant
            0 <= i <= events.len(),
            toks == tokens(events@),
            ({
                let st = key_scan(toks.take(i as int));
                &&& in_key == st.in_key
                &&& opt_text(key) == st.key
                &&& texts(names@) == st.names
            }),
        decreases events.len() - i,
    {
        assert(toks.take(i + 1).drop_last() =~= toks.take(i as int));
        assert(toks.take(i + 1).last() == events@[i as int]@);
        match &events[i] {
            XmlItem::Start(name) => {
                if text_equals(name.as_str(), "Key") {
                    in_key = true;
                    key = Some(String::new());
                }
            },
            XmlItem::Text(value) => {
                if in_key {
                    key = extend_text(key, value.as_str());
                }
            },
            XmlItem::End(name) => {
                if text_equals(name.as_str(), "Key") {
                    in_key = false;
                    let taken = key.take();
                    match taken {
                        Some(value) => {
                            let name = key_name(value.as_str());
                            let ghost before = names@;
                            names.push(name);
                            assert(texts(names@) =~= texts(before).push(name@));
                        },
                        None => {},
                    }
                }
            },
            XmlItem::Other => {},
        }
        i = i + 1;
    }
    assert(toks.take(events.len() as int) =~= toks);
    names
}

/// What nexrad-data reads from a chunk name: the name, its stamp and its
/// sequence number.
pub open spec fn named_chunk(site: Seq<char>, volume: usize, name: Seq<char>) -> Option<
    (Seq<char>, int, usize),
> {
    match nexrad_chunk_fields(site, volume, name) {
        Some(f) => Some((name, spec_moment(f.0, name_nanos(f.1)), f.2)),
        None => None,
    }
}

/// The name, stamp and sequence number of a chunk.
pub open spec fn chunk_key(c: Chunk) -> (Seq<char>, int, usize) {
    (c.name@, c.stamp as int, c.sequence)
}

/// Every chunk of `cs` belongs to `volume` of `site`, and in order they are
/// the names of `names` that nexrad-data reads as chunk names.
pub open spec fn chunks_named(
    cs: Seq<Chunk>,
    site: Seq<char>,
    volume: usize,
    names: Seq<Seq<char>>,
) -> bool {
    &&& cs.map_values(|c: Chunk| chunk_key(c)) == names.filter_map(
        |n: Seq<char>| named_chunk(site, volume, n),
    )
    &&& forall|k: int| 0 <= k < cs.len() ==> (#[trigger] cs[k]).site@ == site && cs[k].volume == volume
}

/// The chunks of `volume` of `site` that the names `names` identify, in
/// order; names that are not chunk names are skipped.
pub fn chunks_from_names(site: &str, volume: usize, names: &Vec<String>) -> (cs: Vec<Chunk>)
    ensures
        chunks_named(cs@, site@, volume, texts(names@)),
{
    let ghost f = |n: Seq<char>| named_chunk(site@, volume, n);
    let ghost ns = texts(names@);
    let mut cs: Vec<Chunk> = Vec::new();
    let mut i: usize = 0;
    while i < names.len()
        invariant
            0 <= i <= names.len(),
            ns == texts(names@),
            f == (|n: Seq<char>| named_chunk(site@, volume, n)),
            cs@.map_values(|c: Chunk| chunk_key(c)) == ns.take(i as int).filter_map(f),
            forall|k: int| 0 <= k < cs.len() ==> (#[trigger] cs@[k]).site@ == site@ && cs@[k].volume
                == volume,
        decreases names.len() - i,
    {
        proof {
            ns.lemma_filter_map_take_succ(f, i as int);
        }
        let ghost before = cs@;
        match Chunk::from_name(site, volume, names[i].as_str()) {
            Some(c) => {
                cs.push(c);
                assert(cs@.map_values(|c: Chunk| chunk_key(c)) =~= before.map_values(
                    |c: Chunk| chunk_key(c),
                ) + seq![chunk_key(c)]);
            },
            None => {},
        }
        i = i + 1;
    }
    assert(ns.take(names.len() as int) =~= ns);
    cs
}

/// The chunks named by the keys of a chunk listing of `volume` of `site`.
pub fn chunks_from_events(events: &Vec<XmlItem>, site: &str, volume: usize) -> (cs: Vec<Chunk>)
    ensures
        chunks_named(cs@, site@, volume, key_scan(tokens(events@)).names),
{
    let names = key_names_from_events(events);
    chunks_from_names(site, volume, &names)
}

/// The chunks named by the keys of a chunk listing body of `volume` of
/// `site`, or the reader's error.
pub fn parse_chunk_keys(body: &str, site: &str, volume: usize) -> (r: Result<Vec<Chunk>, String>)
    ensures
        xml_reader_events(body@) matches Err(e) ==> (r matches Err(m) && m@
            == "reading chunk listing: "@ + e),
        xml_reader_events(body@) matches Ok(toks) ==> (r matches Ok(cs) && chunks_named(
            cs@,
            site@,
            volume,
            key_scan(toks).names,
        )),
{
    match read_xml_events(body) {
        Err(e) => Err("reading chunk listing: ".to_owned().concat(e.as_str())),
        Ok(events) => Ok(chunks_from_events(&events, site, volume)),
    }
}

} // verus!
