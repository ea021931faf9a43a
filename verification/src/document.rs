//! Listing documents built from elements, and what the listing readers make
//! of them. A document is a series of parts, each standing for the events of
//! one element (its text as one run of characters) or of an element boundary;
//! the laws here state the readers' results over the parts themselves.

use vstd::prelude::*;
use crate::chunk::Chunk;
use crate::listing::{
    chunks_named,
    key_scan, key_scan_step, last_segment, spec_volume_of_prefix, volume_scan, volume_scan_step,
    volume_listing_outcome, KeyScan, VolumeScan, XmlToken,
};

verus! {

/// One part of a listing document.
pub enum ListingPart {
    /// `<CommonPrefixes><Prefix>text</Prefix></CommonPrefixes>`.
    CommonPrefix(Seq<char>),
    /// `<IsTruncated>text</IsTruncated>`.
    Truncated(Seq<char>),
    /// `<Key>text</Key>`.
    Key(Seq<char>),
    /// `<name>text</name>` for another element name.
    Element(Seq<char>, Seq<char>),
    /// The opening tag of another element, such as `<Contents>`.
    Open(Seq<char>),
    /// The closing tag of another element, such as `</Contents>`.
    Close(Seq<char>),
    /// Anything without an element: the declaration, whitespace, comments.
    Blank,
}

/// The events of one part.
pub open spec fn part_tokens(p: ListingPart) -> Seq<XmlToken> {
    match p {
        ListingPart::CommonPrefix(t) => seq![
            XmlToken::Start("CommonPrefixes"@),
            XmlToken::Start("Prefix"@),
            XmlToken::Text(t),
            XmlToken::End("Prefix"@),
            XmlToken::End("CommonPrefixes"@),
        ],
        ListingPart::Truncated(t) => seq![
            XmlToken::Start("IsTruncated"@),
            XmlToken::Text(t),
            XmlToken::End("IsTruncated"@),
        ],
        ListingPart::Key(t) => seq![XmlToken::Start("Key"@), XmlToken::Text(t), XmlToken::End("Key"@)],
        ListingPart::Element(n, t) => seq![XmlToken::Start(n), XmlToken::Text(t), XmlToken::End(n)],
        ListingPart::Open(n) => seq![XmlToken::Start(n)],
        ListingPart::Close(n) => seq![XmlToken::End(n)],
        ListingPart::Blank => seq![XmlToken::Other],
    }
}

/// The events of a document, part after part.
pub open spec fn document_tokens(parts: Seq<ListingPart>) -> Seq<XmlToken>
    decreases parts.len(),
{
    if parts.len() == 0 {
        Seq::empty()
    } else {
        document_tokens(parts.drop_last()) + part_tokens(parts.last())
    }
}

/// A name the volume listing reader does not react to outside a
/// `CommonPrefixes` element.
pub open spec fn plain_listing_name(n: Seq<char>) -> bool {
    n != "CommonPrefixes"@ && n != "IsTruncated"@
}

/// The parts of a volume listing: its other elements and tags have plain
/// names and it holds no `Key` part.
pub open spec fn volume_listing_parts(parts: Seq<ListingPart>) -> bool {
    forall|i: int|
        0 <= i < parts.len() ==> match #[trigger] parts[i] {
            ListingPart::Key(_) => false,
            ListingPart::Element(n, _) => plain_listing_name(n),
            ListingPart::Open(n) => plain_listing_name(n),
            ListingPart::Close(n) => plain_listing_name(n),
            _ => true,
        }
}

/// The volume numbers the `CommonPrefixes` parts name, in document order.
pub open spec fn listed_volumes(parts: Seq<ListingPart>, site: Seq<char>) -> Seq<usize>
    decreases parts.len(),
{
    if parts.len() == 0 {
        Seq::empty()
    } else {
        let rest = listed_volumes(parts.drop_last(), site);
        match parts.last() {
            ListingPart::CommonPrefix(t) => match spec_volume_of_prefix(t, site) {
                Some(v) => rest.push(v),
                None => rest,
            },
            _ => rest,
        }
    }
}

/// The text of the last `IsTruncated` part, if any.
pub open spec fn last_truncated(parts: Seq<ListingPart>) -> Option<Seq<char>>
    decreases parts.len(),
{
    if parts.len() == 0 {
        None
    } else {
        match parts.last() {
            ListingPart::Truncated(t) => Some(t),
            _ => last_truncated(parts.drop_last()),
        }
    }
}

/// The volume listing reader, continued from `st` over `toks`.
pub open spec fn volume_scan_from(st: VolumeScan, toks: Seq<XmlToken>, site: Seq<char>) -> VolumeScan
    decreases toks.len(),
{
    if toks.len() == 0 {
        st
    } else {
        volume_scan_step(volume_scan_from(st, toks.drop_last(), site), toks.last(), site)
    }
}

proof fn lemma_volume_scan_concat(a: Seq<XmlToken>, b: Seq<XmlToken>, site: Seq<char>)
    ensures
        volume_scan(a + b, site) == volume_scan_from(volume_scan(a, site), b, site),
    decreases b.len(),
{
    if b.len() == 0 {
        assert(a + b =~= a);
    } else {
        lemma_volume_scan_concat(a, b.drop_last(), site);
        assert((a + b).drop_last() =~= a + b.drop_last());
        assert((a + b).last() == b.last());
    }
}

/// The reader stands outside every element it reacts to.
pub open spec fn volume_scan_outside(st: VolumeScan) -> bool {
    !st.in_common && st.prefix is None && !st.reading_truncated
}

proof fn lemma_volume_part(st: VolumeScan, p: ListingPart, site: Seq<char>)
    requires
        volume_scan_outside(st),
        volume_listing_parts(seq![p]),
    ensures
        ({
            let end = volume_scan_from(st, part_tokens(p), site);
            &&& volume_scan_outside(end)
            &&& end.volumes == match p {
                ListingPart::CommonPrefix(t) => match spec_volume_of_prefix(t, site) {
                    Some(v) => st.volumes.push(v),
                    None => st.volumes,
                },
                _ => st.volumes,
            }
            &&& end.truncated == match p {
                ListingPart::Truncated(t) => Some(t),
                _ => st.truncated,
            }
        }),
{
    reveal_strlit("CommonPrefixes");
    reveal_strlit("Prefix");
    reveal_strlit("IsTruncated");
    reveal_strlit("Key");
    assert(volume_listing_parts(seq![p]) ==> match seq![p][0] {
        ListingPart::Key(_) => false,
        ListingPart::Element(n, _) => plain_listing_name(n),
        ListingPart::Open(n) => plain_listing_name(n),
        ListingPart::Close(n) => plain_listing_name(n),
        _ => true,
    });
    let toks = part_tokens(p);
    assert(toks.take(0) =~= Seq::<XmlToken>::empty());
    assert(toks.take(toks.len() as int) =~= toks);
    lemma_volume_scan_take(st, toks, 1, site);
    if toks.len() >= 2 {
        lemma_volume_scan_take(st, toks, 2, site);
    }
    if toks.len() >= 3 {
        lemma_volume_scan_take(st, toks, 3, site);
    }
    if toks.len() >= 4 {
        lemma_volume_scan_take(st, toks, 4, site);
    }
    if toks.len() >= 5 {
        lemma_volume_scan_take(st, toks, 5, site);
    }
    assert("Prefix"@.len() == 6 && "CommonPrefixes"@.len() == 14 && "IsTruncated"@.len() == 11);
    let s1 = volume_scan_from(st, toks.take(1), site);
    let s2 = volume_scan_from(st, toks.take(2), site);
    let s3 = volume_scan_from(st, toks.take(3), site);
    let s4 = volume_scan_from(st, toks.take(4), site);
    match p {
        ListingPart::CommonPrefix(t) => {
            assert(s1.in_common && s1.prefix is None && !s1.reading_truncated && s1.volumes
                == st.volumes && s1.truncated == st.truncated);
            assert(s2.prefix == Some(Seq::<char>::empty()) && s2.in_common);
            assert(Seq::<char>::empty() + t =~= t);
            assert(s3.prefix == Some(t) && s3.in_common);
        },
        ListingPart::Truncated(t) => {
            assert(s1.truncated == Some(Seq::<char>::empty()) && s1.reading_truncated);
            assert(Seq::<char>::empty() + t =~= t);
            assert(s2.truncated == Some(t));
        },
        ListingPart::Element(n, t) => {
            assert(s1 == st);
            assert(s2 == st);
        },
        _ => {},
    }
}

proof fn lemma_volume_scan_take(st: VolumeScan, toks: Seq<XmlToken>, k: int, site: Seq<char>)
    requires
        0 < k <= toks.len(),
    ensures
        volume_scan_from(st, toks.take(k), site) == volume_scan_step(
            volume_scan_from(st, toks.take(k - 1), site),
            toks[k - 1],
            site,
        ),
{
    assert(toks.take(k).drop_last() =~= toks.take(k - 1));
    assert(toks.take(k).last() == toks[k - 1]);
}

/// Over a volume listing document, the reader yields exactly the volume
/// numbers of the `CommonPrefixes` prefixes of `site`, in document order,
/// and the text of the last `IsTruncated` element; the top-level `Prefix`
/// and prefixes of other sites never count.
pub proof fn lemma_volume_listing_document(parts: Seq<ListingPart>, site: Seq<char>)
    requires
        volume_listing_parts(parts),
    ensures
        volume_scan(document_tokens(parts), site).volumes == listed_volumes(parts, site),
        volume_scan(document_tokens(parts), site).truncated == last_truncated(parts),
        volume_scan_outside(volume_scan(document_tokens(parts), site)),
    decreases parts.len(),
{
    if parts.len() > 0 {
        let rest = parts.drop_last();
        assert(volume_listing_parts(rest)) by {
            assert forall|i: int| 0 <= i < rest.len() implies #[trigger] rest[i] == parts[i] by {}
        }
        lemma_volume_listing_document(rest, site);
        let p = parts.last();
        assert(parts =~= rest.push(p));
        assert(volume_listing_parts(seq![p])) by {
            assert forall|i: int| 0 <= i < 1 implies #[trigger] seq![p][i] == parts[parts.len() - 1] by {}
        }
        lemma_volume_concat_part(rest, p, site);
        lemma_volume_part(volume_scan(document_tokens(rest), site), p, site);
    } else {
        assert(document_tokens(parts) =~= Seq::<XmlToken>::empty());
    }
}

proof fn lemma_volume_concat_part(rest: Seq<ListingPart>, p: ListingPart, site: Seq<char>)
    ensures
        volume_scan(document_tokens(rest.push(p)), site) == volume_scan_from(
            volume_scan(document_tokens(rest), site),
            part_tokens(p),
            site,
        ),
{
    assert(rest.push(p).drop_last() =~= rest);
    lemma_volume_scan_concat(document_tokens(rest), part_tokens(p), site);
}

/// Over a volume listing document, the listing is accepted exactly when the
/// last `IsTruncated` element reads `false`, and then it holds exactly the
/// volume numbers of the `CommonPrefixes` prefixes of `site`; otherwise it
/// is refused as truncated.
pub proof fn lemma_volume_listing_document_outcome(
    parts: Seq<ListingPart>,
    site: Seq<char>,
    r: Result<Vec<usize>, String>,
)
    requires
        volume_listing_parts(parts),
        volume_listing_outcome(r, document_tokens(parts), site),
    ensures
        r is Ok <==> last_truncated(parts) == Some("false"@),
        r matches Ok(v) ==> forall|n: usize| v@.contains(n) <==> listed_volumes(parts, site).contains(n),
{
    lemma_volume_listing_document(parts, site);
}


/// The parts of a chunk listing: only `Key` parts use the name `Key`.
pub open spec fn key_listing_parts(parts: Seq<ListingPart>) -> bool {
    forall|i: int|
        0 <= i < parts.len() ==> match #[trigger] parts[i] {
            ListingPart::Element(n, _) => n != "Key"@,
            ListingPart::Open(n) => n != "Key"@,
            ListingPart::Close(n) => n != "Key"@,
            _ => true,
        }
}

/// The names of the `Key` parts, each the part of its key after the last
/// `/`, in document order.
pub open spec fn listed_key_names(parts: Seq<ListingPart>) -> Seq<Seq<char>>
    decreases parts.len(),
{
    if parts.len() == 0 {
        Seq::empty()
    } else {
        let rest = listed_key_names(parts.drop_last());
        match parts.last() {
            ListingPart::Key(t) => rest.push(last_segment(t)),
            _ => rest,
        }
    }
}

/// The chunk listing reader, continued from `st` over `toks`.
pub open spec fn key_scan_from(st: KeyScan, toks: Seq<XmlToken>) -> KeyScan
    decreases toks.len(),
{
    if toks.len() == 0 {
        st
    } else {
        key_scan_step(key_scan_from(st, toks.drop_last()), toks.last())
    }
}

proof fn lemma_key_scan_concat(a: Seq<XmlToken>, b: Seq<XmlToken>)
    ensures
        key_scan(a + b) == key_scan_from(key_scan(a), b),
    decreases b.len(),
{
    if b.len() == 0 {
        assert(a + b =~= a);
    } else {
        lemma_key_scan_concat(a, b.drop_last());
        assert((a + b).drop_last() =~= a + b.drop_last());
        assert((a + b).last() == b.last());
    }
}

proof fn lemma_key_scan_take(st: KeyScan, toks: Seq<XmlToken>, k: int)
    requires
        0 < k <= toks.len(),
    ensures
        key_scan_from(st, toks.take(k)) == key_scan_step(key_scan_from(st, toks.take(k - 1)), toks[k - 1]),
{
    assert(toks.take(k).drop_last() =~= toks.take(k - 1));
    assert(toks.take(k).last() == toks[k - 1]);
}

proof fn lemma_key_part(st: KeyScan, p: ListingPart)
    requires
        !st.in_key,
        st.key is None,
        key_listing_parts(seq![p]),
    ensures
        ({
            let end = key_scan_from(st, part_tokens(p));
            &&& !end.in_key
            &&& end.key is None
            &&& end.names == match p {
                ListingPart::Key(t) => st.names.push(last_segment(t)),
                _ => st.names,
            }
        }),
{
    reveal_strlit("CommonPrefixes");
    reveal_strlit("Prefix");
    reveal_strlit("IsTruncated");
    reveal_strlit("Key");
    assert(seq![p][0] == p);
    let toks = part_tokens(p);
    assert(toks.take(0) =~= Seq::<XmlToken>::empty());
    assert(toks.take(toks.len() as int) =~= toks);
    lemma_key_scan_take(st, toks, 1);
    if toks.len() >= 2 {
        lemma_key_scan_take(st, toks, 2);
    }
    if toks.len() >= 3 {
        lemma_key_scan_take(st, toks, 3);
    }
    if toks.len() >= 4 {
        lemma_key_scan_take(st, toks, 4);
    }
    if toks.len() >= 5 {
        lemma_key_scan_take(st, toks, 5);
    }
    assert("Key"@.len() == 3 && "Prefix"@.len() == 6 && "CommonPrefixes"@.len() == 14
        && "IsTruncated"@.len() == 11);
    let s1 = key_scan_from(st, toks.take(1));
    let s2 = key_scan_from(st, toks.take(2));
    match p {
        ListingPart::Key(t) => {
            assert(s1.in_key && s1.key == Some(Seq::<char>::empty()) && s1.names == st.names);
            assert(Seq::<char>::empty() + t =~= t);
            assert(s2.key == Some(t));
        },
        ListingPart::Element(n, t) => {
            assert(s1 == st);
            assert(s2 == st);
        },
        ListingPart::CommonPrefix(t) => {
            assert(s1 == st);
            assert(s2 == st);
        },
        ListingPart::Truncated(t) => {
            assert(s1 == st);
            assert(s2 == st);
        },
        _ => {},
    }
}

/// Over a chunk listing document, the reader yields one name per `Key`
/// element, in document order and without merging repeats: the part of the
/// key after its last `/`.
pub proof fn lemma_key_listing_document(parts: Seq<ListingPart>)
    requires
        key_listing_parts(parts),
    ensures
        key_scan(document_tokens(parts)).names == listed_key_names(parts),
        !key_scan(document_tokens(parts)).in_key,
        key_scan(document_tokens(parts)).key is None,
    decreases parts.len(),
{
    if parts.len() > 0 {
        let rest = parts.drop_last();
        assert(key_listing_parts(rest)) by {
            assert forall|i: int| 0 <= i < rest.len() implies #[trigger] rest[i] == parts[i] by {}
        }
        lemma_key_listing_document(rest);
        let p = parts.last();
        assert(parts =~= rest.push(p));
        assert(key_listing_parts(seq![p])) by {
            assert forall|i: int| 0 <= i < 1 implies #[trigger] seq![p][i] == parts[parts.len() - 1] by {}
        }
        assert(rest.push(p).drop_last() =~= rest);
        lemma_key_scan_concat(document_tokens(rest), part_tokens(p));
        lemma_key_part(key_scan(document_tokens(rest)), p);
    } else {
        assert(document_tokens(parts) =~= Seq::<XmlToken>::empty());
    }
}

/// Over a chunk listing document of `volume` of `site`, the chunks read are,
/// in document order, one per `Key` whose last segment nexrad-data reads as
/// a chunk name, each of that site and volume; other keys are skipped.
pub proof fn lemma_chunk_listing_document(
    parts: Seq<ListingPart>,
    site: Seq<char>,
    volume: usize,
    cs: Seq<Chunk>,
)
    requires
        key_listing_parts(parts),
        chunks_named(cs, site, volume, key_scan(document_tokens(parts)).names),
    ensures
        chunks_named(cs, site, volume, listed_key_names(parts)),
{
    lemma_key_listing_document(parts);
}

} // verus!
