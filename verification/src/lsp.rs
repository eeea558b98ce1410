//! Document links as the protocol carries them: each resolved link with its
//! target parsed as a URI.

use vstd::prelude::*;
use vstd::utf8::*;

use crate::links::{
    document_links, link_models, link_pairs, resolve_all, LinkError, ResolvedLink, ResolvedLinkModel,
};
use crate::mapping::TagRegistry;
use crate::uri::{parse_uri, uri_parses, uri_text};
use lsp_types::Uri;

verus! {

/// Why the document links of a request could not be produced.
#[derive(Debug)]
pub enum DocumentLinkError {
    /// A position of a link does not fit the protocol.
    Position(LinkError),
    /// The location text of a target cannot be turned into a URI: it is not
    /// one, or it is longer than `i32::MAX` bytes.
    InvalidTargetUri(String),
}

/// A resolved link with its target as a URI, parsed from the link's target
/// text.
pub struct DocumentLinkWithUri {
    pub link: ResolvedLink,
    pub target_uri: Uri,
}

/// The target texts of a sequence of resolved links.
pub open spec fn target_texts(ms: Seq<ResolvedLinkModel>) -> Seq<Seq<char>> {
    ms.map_values(|m: ResolvedLinkModel| m.target)
}

/// A location text that can be turned into a URI: at most `i32::MAX` bytes
/// long, and accepted by the URI parser.
pub open spec fn uri_accepts(text: Seq<char>) -> bool {
    encode_utf8(text).len() <= 0x7fff_ffff && uri_parses(text)
}

/// The first location text among `texts` that cannot be turned into a URI.
pub open spec fn first_unparsable(texts: Seq<Seq<char>>) -> Option<Seq<char>>
    decreases texts.len(),
{
    if texts.len() == 0 {
        None
    } else if !uri_accepts(texts[0]) {
        Some(texts[0])
    } else {
        first_unparsable(texts.drop_first())
    }
}

/// The document links of `document_path`, ready for the protocol: the links of
/// [`document_links`], each with its target parsed as a URI.  Fails with the
/// position error of [`document_links`] where there is one, and otherwise
/// with the first target text that does not parse.
pub fn document_links_with_uris(tags: &TagRegistry, document_path: &str) -> (r: Result<
    Vec<DocumentLinkWithUri>,
    DocumentLinkError,
>)
    requires
        tags.wf(),
    ensures
        match resolve_all(link_pairs(tags.link_tags@, tags.target_tags@, document_path@)) {
            Err(e) => r matches Err(DocumentLinkError::Position(e2)) && e2 == e,
            Ok(ms) => match first_unparsable(target_texts(ms)) {
                Some(t) => r matches Err(DocumentLinkError::InvalidTargetUri(s)) && s@ == t,
                None => r matches Ok(v) && v@.len() == ms.len() && forall|i: int|
                    0 <= i < ms.len() ==> (#[trigger] v@[i]).link@ == ms[i]
                        && uri_text(v@[i].target_uri) == ms[i].target,
            },
        },
{
    let links = match document_links(tags, document_path) {
        Ok(links) => links,
        Err(e) => return Err(DocumentLinkError::Position(e)),
    };
    let ghost ms = link_models(links@);
    let ghost texts = target_texts(ms);
    let mut out: Vec<DocumentLinkWithUri> = Vec::new();
    let n = links.len();
    let mut i: usize = 0;
    assert(texts.skip(0) =~= texts);
    while i < n
        invariant
            n == ms.len(),
            n == links@.len(),
            ms == link_models(links@),
            resolve_all(link_pairs(tags.link_tags@, tags.target_tags@, document_path@)) == Ok::<
                Seq<ResolvedLinkModel>,
                LinkError,
            >(ms),
            i <= n,
            out@.len() == i,
            forall|k: int|
                0 <= k < i ==> (#[trigger] out@[k]).link@ == ms[k] && uri_text(out@[k].target_uri)
                    == ms[k].target,
            first_unparsable(texts) == first_unparsable(texts.skip(i as int)),
            texts == target_texts(ms),
        decreases n - i,
    {
        let l = &links[i];
        assert(l@ == ms[i as int]);
        assert(texts.skip(i as int)[0] == l.target@);
        assert(texts.skip(i as int).drop_first() =~= texts.skip(i + 1));
        let text = l.target.as_str();
        let text_len = text.as_bytes().len();
        if text_len > 0x7fff_ffff {
            assert(first_unparsable(texts.skip(i as int)) == Some(l.target@));
            return Err(DocumentLinkError::InvalidTargetUri(l.target.clone()));
        }
        match parse_uri(text) {
            None => {
                assert(first_unparsable(texts.skip(i as int)) == Some(l.target@));
                return Err(DocumentLinkError::InvalidTargetUri(l.target.clone()));
            },
            Some(target_uri) => {
                let link = ResolvedLink {
                    line: l.line,
                    start_character: l.start_character,
                    end_character: l.end_character,
                    target: l.target.clone(),
                };
                out.push(DocumentLinkWithUri { link, target_uri });
            },
        }
        i = i + 1;
    }
    assert(texts.skip(n as int) =~= Seq::<Seq<char>>::empty());
    Ok(out)
}

} // verus!
