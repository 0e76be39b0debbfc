//! Where a product keeps the list of its tiles, and how that list is read.

use vstd::prelude::*;
use vstd::string::StrSliceExecFns;
use vstd::string::StringExecFns;
use crate::text::chars_of;
use crate::text::find;
use crate::text::first_occurrence;
use crate::text::lemma_first_occurrence;
use crate::text::lemma_span_before;
use crate::text::lemma_span_before_bounds;
use crate::text::occurs_at;
use crate::text::span_before;
use crate::text::texts;

verus! {

/// Where the provider stages the files of its products.
pub const BASE_URL_STAGED_PRODUCTS: &'static str = "https://prd-tnm.s3.amazonaws.com/";

/// The query parameter of a product link that names the product's
/// directory.
pub const PREFIX_PARAMETER: &'static str = "prefix=";

/// The file, in a product's directory, that lists its tiles.
pub const DOWNLOAD_LINKS_FILE: &'static str = "/0_file_download_links.txt";

/// A product of the provider's catalogue whose footprint meets the query.
#[derive(Debug)]
pub struct USGSProductResult {
    pub product_link: String,
    pub metadata_link: String,
    pub date: String,
    pub name: String,
}

/// The value of the prefix parameter of a product link: what stands
/// between the first occurrence of `PREFIX_PARAMETER` and the next one, or
/// the end of the link. A link without the parameter has the empty value.
pub open spec fn prefix_value(link: Seq<char>) -> Seq<char> {
    match first_occurrence(link, PREFIX_PARAMETER@, 0) {
        None => Seq::empty(),
        Some(at) => {
            let start = at + PREFIX_PARAMETER@.len();
            match first_occurrence(link, PREFIX_PARAMETER@, start) {
                None => link.subrange(start, link.len() as int),
                Some(end) => link.subrange(start, end),
            }
        },
    }
}

/// The location of the tile list of the product that `link` points to.
pub open spec fn download_links_url(link: Seq<char>) -> Seq<char> {
    BASE_URL_STAGED_PRODUCTS@ + prefix_value(link) + DOWNLOAD_LINKS_FILE@
}

/// Derives the location of a product's tile list from its product link:
/// the staging base, the value of the link's prefix parameter, and the
/// name of the list file.
pub fn get_download_links_txt_file_url(product_link: &String) -> (url: String)
    ensures
        url@ == download_links_url(product_link@),
{
    let link = chars_of(product_link.as_str());
    let key = chars_of(PREFIX_PARAMETER);
    let mut url = BASE_URL_STAGED_PRODUCTS.to_owned();
    match find(&link, &key, 0) {
        None => {
            assert(url@ + Seq::<char>::empty() =~= url@);
        },
        Some(at) => {
            proof {
                lemma_first_occurrence(link@, key@, 0);
                assert(occurs_at(link@, key@, at as int));
            }
            assert(at + key.len() <= link.len());
            let start = at + key.len();
            proof {
                lemma_first_occurrence(link@, key@, start as int);
            }
            let end = match find(&link, &key, start) {
                None => link.len(),
                Some(next) => next,
            };
            url.append(product_link.as_str().substring_char(start, end));
        },
    }
    url.append(DOWNLOAD_LINKS_FILE);
    url
}

/// The non-empty lines of `text`, in order. Lines end at a line feed or at
/// the end of the text; the line feeds belong to no line.
pub open spec fn lines_of(text: Seq<char>) -> Seq<Seq<char>>
    decreases text.len(),
{
    if text.len() == 0 {
        Seq::empty()
    } else {
        let n = span_before(text, '\n');
        let head = if n > 0 {
            seq![text.take(n as int)]
        } else {
            Seq::empty()
        };
        if n >= text.len() {
            head
        } else {
            head + lines_of(text.skip(n as int + 1))
        }
    }
}

/// No line of `lines_of` is empty, and none holds a line feed.
pub proof fn lemma_lines_are_references(text: Seq<char>)
    ensures
        forall|i: int|
            0 <= i < lines_of(text).len() ==> (#[trigger] lines_of(text)[i]).len() > 0
                && !lines_of(text)[i].contains('\n'),
    decreases text.len(),
{
    if text.len() > 0 {
        let n = span_before(text, '\n') as int;
        lemma_span_before_bounds(text, '\n');
        let first = text.take(n);
        assert(!first.contains('\n')) by {
            if first.contains('\n') {
                let j = choose|j: int| 0 <= j < first.len() && first[j] == '\n';
                assert(text[j] == '\n');
            }
        }
        let head = if n > 0 {
            seq![first]
        } else {
            Seq::empty()
        };
        if n < text.len() {
            let rest = lines_of(text.skip(n + 1));
            lemma_lines_are_references(text.skip(n + 1));
            assert forall|i: int| 0 <= i < lines_of(text).len() implies (#[trigger] lines_of(
                text,
            )[i]).len() > 0 && !lines_of(text)[i].contains('\n') by {
                if i >= head.len() {
                    assert(lines_of(text)[i] == rest[i - head.len()]);
                }
            }
        }
    }
}

/// Splits the text of a tile list into its tile references, one per
/// non-empty line.
pub fn manifest_lines(content: &str) -> (lines: Vec<String>)
    ensures
        texts(lines@) == lines_of(content@),
        forall|i: int|
            0 <= i < lines.len() ==> (#[trigger] lines[i])@.len() > 0 && !lines[i]@.contains('\n'),
{
    let chars = chars_of(content);
    let mut lines: Vec<String> = Vec::new();
    let mut start: usize = 0;
    let mut i: usize = 0;
    assert(content@.skip(0) =~= content@);
    while i < chars.len()
        invariant
            start <= i <= chars.len(),
            chars@ == content@,
            forall|j: int| start <= j < i ==> chars@[j] != '\n',
            lines_of(content@) =~= texts(lines@) + lines_of(content@.skip(start as int)),
        decreases chars.len() - i,
    {
        if chars[i] == '\n' {
            let ghost rest = content@.skip(start as int);
            proof {
                lemma_span_before(rest, '\n', i - start);
                assert(rest.skip(i - start + 1) =~= content@.skip(i + 1));
                assert(rest.take(i - start) =~= content@.subrange(start as int, i as int));
            }
            if i > start {
                let ghost before = lines@;
                lines.push(content.substring_char(start, i).to_owned());
                assert(texts(lines@) =~= texts(before) + seq![
                    content@.subrange(start as int, i as int),
                ]);
            }
            start = i + 1;
        }
        i += 1;
    }
    let ghost rest = content@.skip(start as int);
    proof {
        lemma_span_before(rest, '\n', chars.len() - start);
        assert(rest.take(chars.len() - start) =~= content@.subrange(
            start as int,
            chars.len() as int,
        ));
    }
    if chars.len() > start {
        let ghost before = lines@;
        lines.push(content.substring_char(start, chars.len()).to_owned());
        assert(texts(lines@) =~= texts(before) + seq![
            content@.subrange(start as int, chars.len() as int),
        ]);
    }
    proof {
        lemma_lines_are_references(content@);
        assert forall|i: int| 0 <= i < lines.len() implies (#[trigger] lines[i])@.len() > 0
            && !lines[i]@.contains('\n') by {
            assert(lines[i]@ == texts(lines@)[i]);
        }
    }
    lines
}

} // verus!
