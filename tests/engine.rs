use emoru::frecency::{current_timestamp, frecency_contributions, queries_match, Selection};
use emoru::highlight::{build_highlight_segments, HighlightSegment};
use emoru::matcher::{entry_matches_terms, find_fuzzy_match_indices, term_matches_word};
use emoru::payload::{image_payload, trim};
use emoru::rank::top_ranked;
use emoru::session::{entry_view, SearchSession, NUM_SLOTS};
use emoru::text::{split_fields, split_words, word_bounds};

const HALF_LIFE_SECS: f64 = 7.0 * 24.0 * 60.0 * 60.0;

fn strings(items: &[&str]) -> Vec<String> {
    items.iter().map(|s| s.to_string()).collect()
}

fn segs(v: &[HighlightSegment]) -> Vec<(String, bool)> {
    v.iter().map(|s| (s.text.clone(), s.bold)).collect()
}

/// Sort keys for each corpus entry: the bits of its decayed score, which
/// order as the (non-negative) scores do.
fn keys_for(session: &SearchSession, query: &str, now: u64) -> Vec<u64> {
    let contributions = frecency_contributions(&session.selections, query, now);
    session
        .corpus
        .iter()
        .map(|entry| {
            let code = SearchSession::get_code(entry);
            let mut score = 0.0f64;
            for c in &contributions {
                if Some(&c.code) == code.as_ref() {
                    score += 0.5f64.powf(c.age as f64 / HALF_LIFE_SECS);
                }
            }
            score.to_bits()
        })
        .collect()
}

fn research(session: &mut SearchSession, now: u64) {
    let q = session.query();
    let qk = keys_for(session, &q, now);
    let ak = keys_for(session, "", now);
    session.search(&qk, &ak);
}

fn two_entry_corpus() -> Vec<String> {
    strings(&["😀| grinning face| 1f600", "😢| crying face| 1f622"])
}

#[test]
fn term_matches_word_examples() {
    assert!(term_matches_word("sm", "smile"));
    assert!(term_matches_word("sm", "small"));
    assert!(!term_matches_word("ml", "smile"));
    assert!(term_matches_word("", "anything"));
    assert!(term_matches_word("", ""));
    assert!(!term_matches_word("s", ""));
    assert!(term_matches_word("sle", "smile"));
    assert!(!term_matches_word("sel", "smile"));
    assert!(!term_matches_word("smilee", "smile"));
}

#[test]
fn fuzzy_indices_are_greedy_and_case_insensitive() {
    assert_eq!(find_fuzzy_match_indices("gf", "GiraFfe"), Some(vec![0, 4]));
    assert_eq!(find_fuzzy_match_indices("sm", "smile"), Some(vec![0, 1]));
    assert_eq!(find_fuzzy_match_indices("sle", "smile"), Some(vec![0, 3, 4]));
    assert_eq!(find_fuzzy_match_indices("ml", "smile"), None);
    assert_eq!(find_fuzzy_match_indices("", "smile"), None);
    assert_eq!(find_fuzzy_match_indices("s", ""), None);
    assert_eq!(find_fuzzy_match_indices("smz", "smile"), None);
}

#[test]
fn words_and_fields_split() {
    assert_eq!(split_words("  grinning \t face  "), strings(&["grinning", "face"]));
    assert_eq!(split_words(""), Vec::<String>::new());
    assert_eq!(word_bounds(" ab  c"), vec![(1, 3), (5, 6)]);
    assert_eq!(split_fields("😀| grinning face| 1f600"), strings(&["😀", "grinning face", "1f600"]));
    assert_eq!(split_fields("a|| b"), strings(&["a|", "b"]));
    assert_eq!(split_fields("plain"), strings(&["plain"]));
    assert_eq!(split_fields(""), strings(&[""]));
    assert_eq!(split_fields("a| "), strings(&["a", ""]));
}

#[test]
fn entry_matching_needs_every_term() {
    let entry = "😀| Grinning Face| 1f600";
    assert!(entry_matches_terms(entry, &strings(&["gr", "fa"])));
    assert!(entry_matches_terms(entry, &strings(&["gf"])) == false);
    assert!(!entry_matches_terms(entry, &strings(&["gr", "x"])));
    assert!(entry_matches_terms(entry, &strings(&[])));
    assert!(entry_matches_terms(entry, &strings(&[""])));
    assert!(!entry_matches_terms("malformed", &strings(&[])));
    assert!(!entry_matches_terms("malformed", &strings(&["m"])));
}

#[test]
fn highlight_marks_matched_characters() {
    let r = build_highlight_segments("grinning face", &strings(&["gr"]));
    assert_eq!(segs(&r), vec![("gr".to_string(), true), ("inning face".to_string(), false)]);
    let r = build_highlight_segments("Grinning Face", &strings(&["gr", "fe"]));
    assert_eq!(
        segs(&r),
        vec![
            ("Gr".to_string(), true),
            ("inning ".to_string(), false),
            ("F".to_string(), true),
            ("ac".to_string(), false),
            ("e".to_string(), true),
        ]
    );
}

#[test]
fn highlight_without_terms_is_one_plain_segment() {
    let r = build_highlight_segments("grinning face", &strings(&[]));
    assert_eq!(segs(&r), vec![("grinning face".to_string(), false)]);
    let r = build_highlight_segments("grinning face", &strings(&["", ""]));
    assert_eq!(segs(&r), vec![("grinning face".to_string(), false)]);
    let r = build_highlight_segments("", &strings(&["a"]));
    assert_eq!(segs(&r), vec![("".to_string(), false)]);
}

#[test]
fn highlight_round_trip() {
    let texts = ["grinning face", "  smiling  face with  eyes ", "日本 語テキスト", "x"];
    let term_sets = [strings(&["sm", "fa"]), strings(&["e"]), strings(&["日"]), strings(&["zz"])];
    for text in texts.iter() {
        for terms in term_sets.iter() {
            let r = build_highlight_segments(text, terms);
            let joined: String = r.iter().map(|s| s.text.as_str()).collect();
            assert_eq!(&joined, text);
            for w in r.windows(2) {
                assert_ne!(w[0].bold, w[1].bold);
            }
        }
    }
}

#[test]
fn prefix_related_queries() {
    assert!(queries_match("gr", "g"));
    assert!(queries_match("g", "gr"));
    assert!(queries_match("gr", "gr"));
    assert!(queries_match("gr", ""));
    assert!(!queries_match("gr", "cr"));
}

#[test]
fn contributions_filter_and_age() {
    let now = 1_000_000_000u64;
    let week = 7 * 24 * 60 * 60;
    let sels = vec![
        Selection::new("1f600".to_string(), "GR", now - week),
        Selection::new("1f622".to_string(), "cr", now - 10),
        Selection::new("1f600".to_string(), "g", now + 50),
    ];
    assert_eq!(sels[0].query, "gr");
    let c = frecency_contributions(&sels, "Gri", now);
    let got: Vec<(String, u64)> = c.iter().map(|c| (c.code.clone(), c.age)).collect();
    assert_eq!(got, vec![("1f600".to_string(), week), ("1f600".to_string(), 0)]);
    let all = frecency_contributions(&sels, "", now);
    assert_eq!(all.len(), 3);
    assert_eq!(all[1].age, 10);
}

#[test]
fn one_week_old_selection_decays_to_half() {
    let now = 1_000_000_000u64;
    let mut s = SearchSession::new(two_entry_corpus(), vec![Selection::new("1f600".to_string(), "gr", now - 604800)]);
    s.insert_text("gr");
    let keys = keys_for(&s, "gr", now);
    let score = f64::from_bits(keys[0]);
    assert!((score - 0.5).abs() < 1e-12);
    assert_eq!(f64::from_bits(keys[1]), 0.0);
}

#[test]
fn top_ranked_orders_by_key_then_index() {
    let keys = vec![1, 5, 5, 0, 9, 5, 2];
    let elig = vec![true, true, true, true, false, true, true];
    assert_eq!(top_ranked(&keys, &elig, 5), vec![1, 2, 5, 6, 0]);
    assert_eq!(top_ranked(&keys, &elig, 2), vec![1, 2]);
    assert_eq!(top_ranked(&keys, &vec![false; 7], 5), Vec::<usize>::new());
}

#[test]
fn prior_selection_ranks_first() {
    let now = current_timestamp();
    let mut s = SearchSession::new(two_entry_corpus(), vec![Selection::new("1f600".to_string(), "gr", now - 100)]);
    s.insert_text("gr");
    research(&mut s, now);
    assert_eq!(s.matches[0], 0);
    assert_eq!(s.selected_code(), Some("1f600".to_string()));
}

#[test]
fn selection_history_reorders_matches() {
    let now = 2_000_000u64;
    let mut s = SearchSession::new(two_entry_corpus(), vec![Selection::new("1f622".to_string(), "f", now - 100)]);
    s.insert_text("fa");
    research(&mut s, now);
    assert_eq!(s.matches, vec![1, 0]);
}

#[test]
fn empty_query_shows_first_five_in_order() {
    let corpus: Vec<String> = (0..8).map(|i| format!("e| entry number {}| c{}", i, i)).collect();
    let mut s = SearchSession::new(corpus, vec![]);
    research(&mut s, 1000);
    assert_eq!(s.matches, vec![0, 1, 2, 3, 4]);
    assert_eq!(s.selected_index, 0);
}

#[test]
fn no_match_falls_back_to_whole_corpus() {
    let now = 5000u64;
    let mut s = SearchSession::new(two_entry_corpus(), vec![Selection::new("1f622".to_string(), "zz", now)]);
    s.insert_text("zzz");
    research(&mut s, now);
    assert_eq!(s.matches, vec![1, 0]);
}

#[test]
fn deleting_to_empty_query_resets_cursor_and_expands() {
    let corpus: Vec<String> = vec![
        "a| smile| c0".to_string(),
        "b| frown| c1".to_string(),
        "c| small cat| c2".to_string(),
        "d| dog| c3".to_string(),
    ];
    let mut s = SearchSession::new(corpus, vec![]);
    assert!(s.handle_key("s"));
    assert!(s.handle_key("m"));
    research(&mut s, 10);
    assert_eq!(s.matches, vec![0, 2]);
    assert!(!s.handle_key("down"));
    assert_eq!(s.selected_index, 1);
    assert!(s.handle_key("backspace"));
    assert_eq!(s.selected_index, 0);
    research(&mut s, 10);
    assert_eq!(s.search_text(), "s");
    assert!(s.handle_key("backspace"));
    research(&mut s, 10);
    assert_eq!(s.search_text(), "");
    assert_eq!(s.selected_index, 0);
    assert_eq!(s.matches, vec![0, 1, 2, 3]);
}

#[test]
fn matches_and_cursor_stay_in_bounds() {
    let corpus: Vec<String> = (0..9).map(|i| format!("e| face {}| c{}", i, i)).collect();
    let mut s = SearchSession::new(corpus, vec![]);
    s.handle_key("f");
    research(&mut s, 1);
    assert_eq!(s.matches.len(), NUM_SLOTS);
    for _ in 0..10 {
        s.handle_key("down");
    }
    assert_eq!(s.selected_index, NUM_SLOTS - 1);
    for _ in 0..10 {
        s.handle_key("up");
    }
    assert_eq!(s.selected_index, 0);
    let mut empty = SearchSession::new(vec![], vec![]);
    research(&mut empty, 1);
    empty.handle_key("down");
    assert_eq!(empty.matches.len(), 0);
    assert_eq!(empty.selected_index, 0);
    assert_eq!(empty.selected_code(), None);
}

#[test]
fn search_twice_is_stable() {
    let corpus: Vec<String> = (0..7).map(|i| format!("e| face {}| c{}", i, i)).collect();
    let mut s = SearchSession::new(corpus, vec![Selection::new("c3".to_string(), "f", 10)]);
    s.handle_key("f");
    research(&mut s, 100);
    s.handle_key("down");
    s.handle_key("down");
    let first = (s.matches.clone(), s.selected_index);
    research(&mut s, 100);
    assert_eq!((s.matches.clone(), s.selected_index), first);
    assert_eq!(s.matches[0], 3);
}

#[test]
fn keys_edit_letters() {
    let mut s = SearchSession::new(two_entry_corpus(), vec![]);
    assert!(s.handle_key("Gr"));
    assert!(!s.handle_key("shift"));
    assert_eq!(s.search_text(), "Gr");
    assert_eq!(s.query(), "gr");
    assert!(s.handle_key("ctrl-backspace"));
    assert_eq!(s.search_text(), "");
    assert!(s.handle_key("backspace"));
    assert_eq!(s.search_text(), "");
    s.handle_key("smiling face");
    assert_eq!(s.terms(), strings(&["smiling", "face"]));
}

#[test]
fn codes_and_entry_views() {
    assert_eq!(SearchSession::get_code("😀| grinning face| 1f600"), Some("1f600".to_string()));
    assert_eq!(SearchSession::get_code("😀| grinning face"), None);
    let v = entry_view("😀| grinning face| 1f600", &strings(&["fa"])).unwrap();
    assert_eq!(v.glyph, "😀");
    assert_eq!(v.description, "grinning face");
    assert_eq!(v.code, "1f600");
    assert_eq!(segs(&v.segments), vec![("grinning ".to_string(), false), ("fa".to_string(), true), ("ce".to_string(), false)]);
    assert!(entry_view("bad| row", &strings(&[])).is_none());
}

#[test]
fn payload_is_trimmed_base64() {
    assert_eq!(image_payload("  aGk=\n"), Some(vec![104, 105]));
    assert_eq!(image_payload("aGVsbG8="), Some(b"hello".to_vec()));
    assert_eq!(image_payload("not base64!"), None);
    assert_eq!(image_payload(""), Some(vec![]));
    assert_eq!(trim(" \t x y \n"), "x y");
}
