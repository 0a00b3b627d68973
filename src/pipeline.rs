//! The page pipeline: main text first, then its summary as one string.
use vstd::prelude::*;
use crate::extract::{page_text, strip_html_tags, ExtractError};
use crate::segment::{strings_view, Segmenter};
use crate::summary::{extract_summary, summary};
use crate::text::{chars_of, string_of};

verus! {

/// How many sentences a page summary keeps.
pub const SUMMARY_SENTENCES: usize = 2;

/// The parts concatenated, with nothing between them.
pub open spec fn concat(parts: Seq<Seq<char>>) -> Seq<char>
    decreases parts.len(),
{
    if parts.len() == 0 {
        Seq::empty()
    } else {
        concat(parts.drop_last()) + parts.last()
    }
}

/// The summary of the page `html`: the best sentences of its main text,
/// concatenated.
pub fn page_summary(html: &str, seg: &Segmenter) -> (r: Result<String, ExtractError>)
    ensures
        r matches Ok(s) && page_text(html@) matches Some(t) && s@ == concat(summary(t, SUMMARY_SENTENCES as nat)),
{
    let text = match strip_html_tags(html) {
        Ok(t) => t,
        Err(e) => {
            return Err(e);
        },
    };
    let parts = extract_summary(text.as_str(), SUMMARY_SENTENCES, seg);
    let ghost pv = strings_view(parts@);
    let mut out: Vec<char> = Vec::new();
    let mut i: usize = 0;
    while i < parts.len()
        invariant
            pv == strings_view(parts@),
            i <= parts@.len(),
            out@ == concat(pv.take(i as int)),
        decreases parts@.len() - i,
    {
        assert(pv.take(i + 1).drop_last() == pv.take(i as int));
        let part = chars_of(parts[i].as_str());
        let mut k: usize = 0;
        let ghost base = out@;
        while k < part.len()
            invariant
                k <= part@.len(),
                out@ == base + part@.take(k as int),
            decreases part@.len() - k,
        {
            out.push(part[k]);
            assert(part@.take(k + 1) == part@.take(k as int).push(part@[k as int]));
            k = k + 1;
        }
        assert(part@.take(part@.len() as int) == part@);
        i = i + 1;
    }
    assert(pv.take(pv.len() as int) == pv);
    Ok(string_of(&out))
}

} // verus!
