//! Word segmentation with jieba's built-in dictionary.
use vstd::prelude::*;
use jieba_rs::Jieba;

verus! {

#[verifier::external_type_specification]
#[verifier::external_body]
pub struct ExJieba(Jieba);

/// The words that jieba's dictionary segmentation, without the HMM step and
/// with the built-in dictionary, cuts `s` into.
pub uninterp spec fn jieba_words(s: Seq<char>) -> Seq<Seq<char>>;

/// A word segmenter, loaded once and then only read. It always holds jieba's
/// built-in dictionary and nothing else.
pub struct Segmenter {
    jieba: Jieba,
}

/// Relies on `jieba_rs::Jieba::new`: an instance with the built-in dictionary.
#[verifier::external_body]
fn default_jieba() -> Jieba {
    Jieba::new()
}

pub open spec fn strings_view(v: Seq<String>) -> Seq<Seq<char>> {
    v.map_values(|s: String| s@)
}

impl Segmenter {
    /// A segmenter with the built-in dictionary.
    pub fn new() -> Segmenter {
        Segmenter { jieba: default_jieba() }
    }

    /// The words of `s`, in order.
    pub fn cut(&self, s: &str) -> (r: Vec<String>)
        ensures
            strings_view(r@) == jieba_words(s@),
    {
        cut_words(self, s)
    }
}

/// Relies on `jieba_rs::Jieba::cut` without the HMM step: with the built-in
/// dictionary, which is all a `Segmenter` holds, the words depend on the text alone.
#[verifier::external_body]
fn cut_words(seg: &Segmenter, s: &str) -> (r: Vec<String>)
    ensures
        strings_view(r@) == jieba_words(s@),
{
    seg.jieba.cut(s, false).into_iter().map(|t| t.word.to_string()).collect()
}

} // verus!
