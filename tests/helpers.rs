use jawiki_ut::kana::{
    ascii_fullwidth_to_halfwidth, ascii_to_halfwidth, half_to_hiragana_no_dot, katakana_to_hiragana,
    to_hiragana_replace_ie,
};
use jawiki_ut::lookup::{
    get_id, marker_file_name, matching_names, plan_run, proper_noun_id, worker_count, IdError, RunPlan,
    VersionError,
};
use jawiki_ut::pattern::Pattern;

#[test]
fn katakana_becomes_hiragana() {
    assert_eq!(katakana_to_hiragana('ア'), Some('あ'));
    assert_eq!(katakana_to_hiragana('ヶ'), Some('ゖ'));
    assert_eq!(katakana_to_hiragana('ヾ'), Some('ゞ'));
    assert_eq!(katakana_to_hiragana('ー'), None);
    assert_eq!(katakana_to_hiragana('a'), None);
    assert_eq!(to_hiragana_replace_ie("ヰヱカタカナー"), "いえかたかなー");
    assert_eq!(to_hiragana_replace_ie(""), "");
}

#[test]
fn fullwidth_ascii_becomes_halfwidth() {
    assert_eq!(ascii_fullwidth_to_halfwidth('！'), Some('!'));
    assert_eq!(ascii_fullwidth_to_halfwidth('～'), Some('~'));
    assert_eq!(ascii_fullwidth_to_halfwidth('あ'), None);
    assert_eq!(ascii_to_halfwidth("ＡＢＣあ１"), Some("ABCあ1".to_string()));
    assert_eq!(ascii_to_halfwidth("abc"), None);
}

#[test]
fn patterns_delete_and_capture() {
    let p = Pattern::new("[!?=:・。]").unwrap();
    assert_eq!(p.delete_all("ア!イ・ウ。"), "アイウ");
    let r = Pattern::new("&lt;ref.*?&lt;/ref&gt;").unwrap();
    assert_eq!(r.delete_first("a&lt;ref&gt;x&lt;/ref&gt;b&lt;ref&gt;y&lt;/ref&gt;"), "ab&lt;ref&gt;y&lt;/ref&gt;");
    let g = Pattern::new(r"(\d+) x").unwrap();
    assert_eq!(g.first_group("a 12 x 34 x"), Some("12".to_string()));
    assert_eq!(g.first_group("none"), None);
    assert!(Pattern::new(r"jawiki-ut-.*\.txt").unwrap().is_match("./jawiki-ut-20240101.txt"));
    assert!(!Pattern::new(r"jawiki-ut-.*\.txt").unwrap().is_match("mozcdic.txt"));
    assert!(Pattern::new("(").is_none());
}

#[test]
fn identifier_lookup() {
    let table = "1842 名詞,固有名詞,人名,一般,*,*,*\n1920 名詞,固有名詞,一般,*,*,*,*\n";
    assert_eq!(proper_noun_id(table), Ok("1920".to_string()));
    assert_eq!(proper_noun_id("0 動詞"), Err(IdError::NotFound));
    assert_eq!(get_id("12 a", "("), Err(IdError::InvalidPattern));
    assert_eq!(get_id("12 a", r"(\d+) a"), Ok("12".to_string()));
}

#[test]
fn workers_from_cpuinfo() {
    assert_eq!(worker_count("cpu cores\t: 8\ncpu cores\t: 8\n"), Some(7));
    assert_eq!(worker_count("cpu cores\t: 1\n"), Some(0));
    assert_eq!(worker_count("cpu cores\t: 0\n"), None);
    assert_eq!(worker_count("model name : x\n"), None);
    assert_eq!(worker_count("cpu cores\t: 99999999999999999999999\n"), None);
}

#[test]
fn marker_name_from_index() {
    let index = "<a href=\"x\">jawiki-latest-pages-articles-multistream.xml.bz2</a>     02-Oct-2024 17:56  1234\n";
    assert_eq!(marker_file_name(index), Ok("jawiki-ut-02-Oct-2024.txt".to_string()));
    assert_eq!(marker_file_name("nothing here"), Err(VersionError::IndexBroken));
    assert_eq!(
        marker_file_name("jawiki-latest-pages-articles-multistream.xml.bz2</a>   date"),
        Err(VersionError::DateStrange)
    );
}

#[test]
fn second_run_is_skipped() {
    assert_eq!(plan_run(false), RunPlan::Generate);
    assert_eq!(plan_run(true), RunPlan::AlreadyDone);
}

#[test]
fn halfwidth_katakana_becomes_hiragana() {
    assert_eq!(half_to_hiragana_no_dot("ｶﾞｷﾞ･ﾊﾟｳﾞｱ"), "がぎぱゔあ");
    assert_eq!(half_to_hiragana_no_dot("ｦｧｰﾝ"), "をぁーん");
    assert_eq!(half_to_hiragana_no_dot("abc･"), "abc");
    assert_eq!(half_to_hiragana_no_dot("ﾞｶ"), "ﾞか");
    assert_eq!(half_to_hiragana_no_dot(""), "");
}

#[test]
fn marker_files_are_picked_by_name() {
    let names: Vec<String> = ["jawiki-ut-20240101.txt", "mozcdic.txt", "jawiki-ut-x.txt", "jawiki-ut-.tx"]
        .iter()
        .map(|s| s.to_string())
        .collect();
    assert_eq!(
        matching_names(r"jawiki-ut-.*\.txt", &names),
        Some(vec!["jawiki-ut-20240101.txt".to_string(), "jawiki-ut-x.txt".to_string()])
    );
    assert_eq!(matching_names("(", &names), None);
    assert_eq!(matching_names("x", &[]), Some(Vec::new()));
}
