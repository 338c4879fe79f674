use jawiki_ut::extract::{
    accept_reading, heading, is_excluded, reading_candidate_of, title_reading_of, unescape,
    Extractor,
};
use jawiki_ut::sink::{sorted_unique, ResultSink};
use jawiki_ut::lookup::{marker_for_listing, workers_for_cores};
use jawiki_ut::stream::{records_of_blocks, trim_to_boundary, RecordSplitter, StreamError};

fn chars(s: &str) -> Vec<char> {
    s.chars().collect()
}

fn page(title: &str, body: &str) -> String {
    format!(
        "  <page>\n    <title>{}</title>\n    <revision>\n      <text bytes=\"1\" xml:space=\"preserve\">{}</text>\n    </revision>\n  </page>\n",
        title, body
    )
}

fn extractor() -> Extractor {
    Extractor::new("1920").expect("patterns compile")
}

/// Feeds `data` in blocks of `size` bytes, then finishes the stream.
fn records_in_blocks(data: &[u8], size: usize) -> Vec<Vec<u8>> {
    let mut splitter = RecordSplitter::new();
    let mut out = Vec::new();
    for block in data.chunks(size) {
        out.extend(splitter.feed(block));
    }
    out.extend(splitter.finish().expect("complete stream"));
    out
}

fn run(data: &[u8], size: usize) -> Vec<String> {
    let e = extractor();
    let mut sink = ResultSink::new();
    for r in records_in_blocks(data, size) {
        if let Some(line) = e.extract(&r) {
            sink.push(line);
        }
    }
    sink.into_sorted_unique()
}

#[test]
fn two_records_give_one_line() {
    let mut data = page("アアア", "アアア(あああ、[[1984年]])\n本文");
    data.push_str(&page("Wikipedia:AAA", "AAA(あああ、)"));
    let lines = run(data.as_bytes(), 7);
    assert_eq!(lines, vec!["あああ\t1920\t1920\t6000\tアアア\n".to_string()]);
}

#[test]
fn kana_title_gives_its_own_reading() {
    let data = page("アイウ", "本文には読みがない");
    let e = extractor();
    let recs = records_in_blocks(data.as_bytes(), 1 << 20);
    let lines: Vec<String> = recs.iter().filter_map(|r| e.extract(r)).collect();
    assert_eq!(lines, vec!["あいう\t1920\t1920\t6000\tアイウ\n".to_string()]);
}

#[test]
fn character_split_between_blocks_is_kept_whole() {
    let text = "  <page><title>あ</title>  </page>";
    let bytes = text.as_bytes();
    let start = text.find('あ').unwrap();
    let mut splitter = RecordSplitter::new();
    // the first block ends after the first byte of あ
    let first = splitter.feed(&bytes[..start + 1]);
    assert!(first.is_empty());
    let second = splitter.feed(&bytes[start + 1..]);
    assert_eq!(second.len(), 1);
    assert_eq!(second[0], "  <page><title>あ</title>".as_bytes().to_vec());
    let rest = splitter.finish().unwrap();
    assert_eq!(rest, vec![Vec::<u8>::new()]);
}

#[test]
fn delimiter_split_between_blocks_gives_one_record() {
    let text = "<title>A</title>  </page>B";
    let bytes = text.as_bytes();
    let cut = text.find("</page>").unwrap();
    let mut splitter = RecordSplitter::new();
    let first = splitter.feed(&bytes[..cut]);
    assert!(first.is_empty());
    let second = splitter.feed(&bytes[cut..]);
    assert_eq!(second, vec![b"<title>A</title>".to_vec()]);
    assert_eq!(splitter.finish().unwrap(), vec![b"B".to_vec()]);
}

#[test]
fn long_or_internal_titles_give_nothing() {
    let e = extractor();
    let long = "ア".repeat(26);
    for title in [long.as_str(), "Wikipedia:アイウ", "Category:アイウ", "ファイル:アイウ", "アイ(曖昧さ回避)", "アイ、ウ"] {
        let data = page(title, &format!("{}(あいう)", title));
        let rec = records_in_blocks(data.as_bytes(), 1 << 20);
        assert!(rec.iter().all(|r| e.extract(r).is_none()), "{}", title);
    }
    let fits = "ア".repeat(25);
    let data = page(&fits, "");
    let rec = records_in_blocks(data.as_bytes(), 1 << 20);
    assert_eq!(rec.iter().filter_map(|r| e.extract(r)).count(), 1);
}

#[test]
fn block_size_does_not_change_records() {
    let mut data = String::new();
    for (t, b) in [("東京", "'''東京'''(とうきょう)"), ("アイウ", ""), ("大阪", "大阪(おおさか)"), ("ＡＢＣ", "x")] {
        data.push_str(&page(t, b));
    }
    let whole = records_in_blocks(data.as_bytes(), data.len());
    assert_eq!(whole.len(), 5);
    for size in [1, 2, 3, 5, 8, 13, 64, 1000] {
        assert_eq!(records_in_blocks(data.as_bytes(), size), whole, "block size {}", size);
    }
    assert_eq!(run(data.as_bytes(), 3), run(data.as_bytes(), 4096));
}

#[test]
fn trim_keeps_text_and_held_bytes_together() {
    let text = "abあい".as_bytes();
    // cut inside い: the bytes from い on are held back
    let n = text.len() - 1;
    let c = trim_to_boundary(&text[..n]);
    assert_eq!(c, 5);
    assert!(std::str::from_utf8(&text[..c]).is_ok());
    let mut joined = text[..c].to_vec();
    joined.extend_from_slice(&text[c..n]);
    assert_eq!(joined, text[..n].to_vec());
    // a block ending in ASCII is kept whole
    assert_eq!(trim_to_boundary(b"abc"), 3);
    // a complete multi-byte character at the end is still held back
    assert_eq!(trim_to_boundary("aあ".as_bytes()), 1);
    // continuation bytes alone: everything is held back
    assert_eq!(trim_to_boundary(&[0x80, 0x81]), 0);
    assert_eq!(trim_to_boundary(&[]), 0);
}

#[test]
fn stream_ending_inside_a_character_fails() {
    let mut splitter = RecordSplitter::new();
    let bytes = "aあ".as_bytes();
    assert!(splitter.feed(&bytes[..2]).is_empty());
    assert_eq!(splitter.finish(), Err(StreamError::TruncatedCharacter));

    let mut whole = RecordSplitter::new();
    assert!(whole.feed(&[0x80, 0x80]).is_empty());
    assert_eq!(whole.finish(), Err(StreamError::TruncatedCharacter));
}

#[test]
fn output_is_sorted_and_unique() {
    let lines = vec!["b\n", "a\n", "b\n", "ア\n", "a\n", "あ\n"]
        .into_iter()
        .map(String::from)
        .collect();
    let out = sorted_unique(lines);
    assert_eq!(out, vec!["a\n", "b\n", "あ\n", "ア\n"]);
    for w in out.windows(2) {
        assert!(w[0] < w[1]);
    }
    assert!(sorted_unique(Vec::new()).is_empty());
}

#[test]
fn reading_from_article_line() {
    let body = "'''皆藤 愛子'''&lt;ref&gt;一部のプロフィールが&lt;/ref&gt;(かいとう あいこ、[[1984年]] - )";
    let data = page("皆藤愛子", body);
    assert_eq!(
        run(data.as_bytes(), 10),
        vec!["かいとうあいこ\t1920\t1920\t6000\t皆藤愛子\n".to_string()]
    );
}

#[test]
fn leading_templates_are_skipped() {
    let body = "{{Infobox\n| name = 東京\n}}\n{{Other}}\n'''東京'''(とうきょう)は都市";
    let data = page("東京", body);
    assert_eq!(run(data.as_bytes(), 64), vec!["とうきょう\t1920\t1920\t6000\t東京\n".to_string()]);
}

#[test]
fn katakana_reading_is_rejected() {
    let data = page("ミュージシャン一覧", "ミュージシャン一覧(グループ)");
    assert!(run(data.as_bytes(), 64).is_empty());
    let data = page("長音", "長音(ーちょう)");
    assert!(run(data.as_bytes(), 64).is_empty());
}

#[test]
fn heading_cut_and_halfwidth() {
    assert_eq!(heading(&chars("田中瞳 (アナウンサー)")), chars("田中瞳"));
    assert_eq!(heading(&chars("ＡＢＣ")), chars("ABC"));
    let data = page("ＡＢＣ (企業)", "'''ABC'''(えーびーしー)");
    assert_eq!(run(data.as_bytes(), 64), vec!["えーびーしー\t1920\t1920\t6000\tABC\n".to_string()]);
}

#[test]
fn escaped_ampersand_in_heading() {
    let data = page("A&amp;B", "A&amp;B(えーあんどびー)");
    assert_eq!(run(data.as_bytes(), 64), vec!["えーあんどびー\t1920\t1920\t6000\tA&B\n".to_string()]);
    assert_eq!(unescape(&chars("A&amp;B&quot;")), chars("A&B\""));
}

#[test]
fn pieces_of_the_extraction() {
    assert!(is_excluded(&chars("Template:X")));
    assert!(is_excluded(&chars("A B")));
    assert!(!is_excluded(&chars("AB")));
    assert_eq!(title_reading_of(&chars("サイタマーあ")), Some(chars("さいたまーあ")));
    assert_eq!(title_reading_of(&chars("東京")), None);
    assert_eq!(reading_candidate_of(&chars("東京(とうきょう)は"), &chars("東京")), Some(chars("とうきょう")));
    assert_eq!(reading_candidate_of(&chars("東京()"), &chars("東京")), None);
    assert_eq!(reading_candidate_of(&chars("大阪(おおさか"), &chars("東京")), None);
    assert_eq!(accept_reading(&chars("トウキョウ")), None);
    assert_eq!(accept_reading(&chars("とうキョウ")), Some(chars("とうきょう")));
    assert_eq!(accept_reading(&chars("とう京")), None);
}

#[test]
fn invalid_utf8_record_is_skipped() {
    let e = extractor();
    let mut rec = page("アイウ", "").into_bytes();
    rec.push(0xff);
    assert!(e.extract(&rec).is_none());
}

#[test]
fn sink_keeps_every_push() {
    let mut sink = ResultSink::new();
    assert_eq!(sink.len(), 0);
    sink.push("x\n".to_string());
    sink.push("x\n".to_string());
    assert_eq!(sink.len(), 2);
    assert_eq!(sink.into_sorted_unique(), vec!["x\n".to_string()]);
}

#[test]
fn steps_after_outside_calls() {
    assert_eq!(workers_for_cores(&chars("4")), Some(3));
    assert_eq!(workers_for_cores(&chars("0")), None);
    assert_eq!(workers_for_cores(&chars("")), None);
    assert_eq!(workers_for_cores(&chars("4a")), None);
    assert_eq!(marker_for_listing(&chars("01-Jan-2025 00:00 1")), Some("jawiki-ut-01-Jan-2025.txt".to_string()));
    assert_eq!(marker_for_listing(&chars("01-Jan-2025")), None);
}

#[test]
fn records_joined_back_give_the_input() {
    let data = "a  </page>b  </pa";
    let mut splitter = RecordSplitter::new();
    let recs = splitter.feed(data.as_bytes());
    assert_eq!(recs, vec![b"a".to_vec()]);
    assert_eq!(splitter.finish().unwrap(), vec![b"b  </pa".to_vec()]);
}

#[test]
fn split_character_scenario_through_whole_run() {
    let data = "<page><title>アイウ</title><text xml:space=\"preserve\">x</text>  </page>";
    let bytes = data.as_bytes();
    let start = data.find('ア').unwrap();
    let e = extractor();
    for extra in [1, 2] {
        let cut = start + extra;
        let blocks = vec![bytes[..cut].to_vec(), bytes[cut..].to_vec()];
        let recs = records_of_blocks(&blocks).unwrap();
        assert_eq!(recs, records_of_blocks(&vec![bytes.to_vec()]).unwrap());
        let lines: Vec<String> = recs.iter().filter_map(|r| e.extract(r)).collect();
        assert_eq!(lines, vec!["あいう\t1920\t1920\t6000\tアイウ\n".to_string()]);
    }
}

#[test]
fn split_delimiter_scenario_through_whole_run() {
    let data = "R1  </page>R2";
    let cut = "R1  </pa".len();
    let blocks = vec![data.as_bytes()[..cut].to_vec(), data.as_bytes()[cut..].to_vec()];
    assert_eq!(records_of_blocks(&blocks).unwrap(), vec![b"R1".to_vec(), b"R2".to_vec()]);
    let truncated = vec!["aあ".as_bytes()[..2].to_vec()];
    assert_eq!(records_of_blocks(&truncated), Err(StreamError::TruncatedCharacter));
    assert_eq!(records_of_blocks(&Vec::new()).unwrap(), vec![Vec::<u8>::new()]);
}
