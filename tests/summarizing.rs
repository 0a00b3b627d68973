use page_digest::pipeline::page_summary;
use page_digest::segment::Segmenter;
use page_digest::summary::{
    extract_summary, score_sentences, select_top, split_sentences, ScoredSentence, TermFrequencies,
};

fn scored(text: &str, position: usize, score: u128) -> ScoredSentence {
    ScoredSentence { text: text.to_string(), position, score }
}

#[test]
fn sentences_keep_their_piece_ordinals() {
    let s = split_sentences("  。a！ b ？ ");
    let got: Vec<(String, usize)> = s.into_iter().map(|x| (x.text, x.position)).collect();
    assert_eq!(got, vec![("a".to_string(), 1), ("b".to_string(), 2)]);
}

#[test]
fn frequencies_count_every_occurrence() {
    let seg = Segmenter::new();
    let f = TermFrequencies::of_text("今天天气很好。明天也很好。", &seg);
    assert_eq!(f.frequency(&"很".to_string()), 2);
    assert_eq!(f.frequency(&"明天".to_string()), 1);
    assert_eq!(f.frequency(&"后天".to_string()), 0);
}

#[test]
fn sentences_score_by_text_wide_frequencies() {
    let seg = Segmenter::new();
    let text = "今天天气很好。明天也很好。";
    let f = TermFrequencies::of_text(text, &seg);
    let s = score_sentences(&split_sentences(text), &f, &seg);
    let got: Vec<(String, usize, u128)> = s.into_iter().map(|x| (x.text, x.position, x.score)).collect();
    assert_eq!(got, vec![("今天天气很好".to_string(), 0, 5), ("明天也很好".to_string(), 1, 6)]);
}

#[test]
fn higher_scoring_sentence_is_chosen() {
    let seg = Segmenter::new();
    assert_eq!(extract_summary("今天天气很好。明天也很好。", 1, &seg), vec!["明天也很好".to_string()]);
}

#[test]
fn equal_scores_go_to_the_earlier_sentence() {
    let seg = Segmenter::new();
    assert_eq!(extract_summary("很。好。", 1, &seg), vec!["很".to_string()]);
}

#[test]
fn zero_sentences_asked_gives_none() {
    let seg = Segmenter::new();
    assert!(extract_summary("今天天气很好。明天也很好。", 0, &seg).is_empty());
}

#[test]
fn empty_text_gives_no_summary() {
    let seg = Segmenter::new();
    assert!(extract_summary("", 2, &seg).is_empty());
    assert!(extract_summary(" 。！？ ", 2, &seg).is_empty());
}

#[test]
fn asking_for_more_gives_all_in_rank_order() {
    let seg = Segmenter::new();
    assert_eq!(
        extract_summary("今天天气很好。明天也很好。", 5, &seg),
        vec!["明天也很好".to_string(), "今天天气很好".to_string()]
    );
}

#[test]
fn ranking_is_by_score_then_position() {
    let items = vec![scored("a", 0, 3), scored("b", 1, 7), scored("c", 2, 3), scored("d", 3, 7)];
    let top: Vec<String> = select_top(items, 3).into_iter().map(|x| x.text).collect();
    assert_eq!(top, vec!["b".to_string(), "d".to_string(), "a".to_string()]);
}

#[test]
fn all_zero_scores_keep_reading_order() {
    let items = vec![scored("x", 4, 0), scored("y", 1, 0), scored("z", 2, 0)];
    let top: Vec<usize> = select_top(items, 3).into_iter().map(|x| x.position).collect();
    assert_eq!(top, vec![1, 2, 4]);
}

#[test]
fn page_summary_joins_the_best_sentences() {
    let seg = Segmenter::new();
    let html = "<html><body><nav>菜单</nav><p>今天天气很好。明天也很好。</p></body></html>";
    assert_eq!(page_summary(html, &seg), Ok("明天也很好今天天气很好".to_string()));
}

#[test]
fn same_input_gives_same_output() {
    let seg = Segmenter::new();
    let html = "<article><h1>标题</h1><p>今天天气很好。明天也很好。后天下雨。</p></article>";
    assert_eq!(page_summary(html, &seg), page_summary(html, &seg));
    let text = "今天天气很好。明天也很好。后天下雨。";
    assert_eq!(extract_summary(text, 2, &seg), extract_summary(text, 2, &seg));
}
