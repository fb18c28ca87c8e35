use locale_name_code_page::cp_table_type::{CodePage, CpMap, TableNode};
use locale_name_code_page::get_codepage;

fn cp_en_us() -> CodePage {
    CodePage::new(1252, 437)
}

fn cp_en_gb() -> CodePage {
    CodePage::new(1252, 850)
}

fn cp_ja() -> CodePage {
    CodePage::new(932, 932)
}

/// A small table with the entries the tests rely on:
/// "en" -> (1252, 437) with regions "us" -> (1252, 437), "gb" -> (1252, 850);
/// "ja" -> (932, 932) with region "jp" -> (932, 932).
fn table() -> CpMap {
    let mut en = CpMap::new();
    en.insert("us", TableNode::WithCP(cp_en_us(), None));
    en.insert("gb", TableNode::WithCP(cp_en_gb(), None));
    let mut ja = CpMap::new();
    ja.insert("jp", TableNode::WithCP(cp_ja(), None));
    let mut root = CpMap::new();
    root.insert("en", TableNode::WithCP(cp_en_us(), Some(en)));
    root.insert("ja", TableNode::WithCP(cp_ja(), Some(ja)));
    root
}

#[test]
fn codepage_string_test() {
    let table = table();
    let targets: Vec<(&str, CodePage)> = vec![
        ("en-US", cp_en_us()),
        ("en-GB", cp_en_gb()),
        ("en_gb", cp_en_gb()),
        ("ja-JP", cp_ja()),
        ("ja", cp_ja()),
        ("ja_JP.UTF-8", cp_ja()),
        ("en_lmfao", cp_en_us()),
        ("en,ja", cp_en_us()),
        ("en_us.UTF-8,ja_jp.EUC-JP", cp_en_us()),
        ("en_us.UTF-8,ja_jp.EUC-JP", cp_en_us()),
        ("aaaaaa,en", cp_en_us()),
    ];
    for (locale_ref, codepage) in &targets {
        assert_eq!(get_codepage(&table, *locale_ref), Some(*codepage))
    }
}

#[test]
fn invalid_string_test() {
    let table = table();
    let invalid: Vec<&str> = vec!["aaa-bb", "aaa_bb", "aaa"];
    for str_ref in &invalid {
        assert_eq!(get_codepage(&table, *str_ref), None);
    }
}

#[test]
fn tree_tree_test() {
    let table = table();
    let targets: Vec<(Vec<&str>, CodePage)> = vec![
        (vec!["en", "us"], cp_en_us()),
        (vec!["en", "gb"], cp_en_gb()),
        (vec!["ja", "jp"], cp_ja()),
        (vec!["ja"], cp_ja()),
    ];
    for (tokens_ref, codepage) in &targets {
        let mut current_map = &table;
        let mut provisional_code_page = None;
        for token in tokens_ref {
            let key: Vec<char> = token.chars().collect();
            match current_map.get(&key) {
                Some(TableNode::WithCP(codepage, Some(next_ref))) => {
                    provisional_code_page = Some(codepage);
                    current_map = next_ref;
                }
                Some(TableNode::WithCP(codepage, None)) => {
                    provisional_code_page = Some(codepage);
                    break;
                }
                Some(TableNode::WithoutCP(_)) => {
                    break;
                }
                None => panic!("Couldn't find node on `{}` in {:?}", *token, tokens_ref),
            }
        }
        assert_eq!(provisional_code_page, Some(codepage));
    }
}

#[test]
fn codepage_new_fields() {
    let en_us = CodePage::new(1252, 437);
    assert_eq!(en_us.ansi, 1252);
    assert_eq!(en_us.oem, 437);
}

#[test]
fn repeated_calls_agree() {
    let table = table();
    assert_eq!(get_codepage(&table, "en-GB"), get_codepage(&table, "en-GB"));
    assert_eq!(get_codepage(&table, "nothing"), get_codepage(&table, "nothing"));
}

#[test]
fn case_insensitive_resolution() {
    let table = table();
    assert_eq!(get_codepage(&table, "en-US"), get_codepage(&table, "en-us"));
    assert_eq!(get_codepage(&table, "en-us"), get_codepage(&table, "EN-US"));
    assert_eq!(get_codepage(&table, "en-US"), Some(cp_en_us()));
    assert_eq!(get_codepage(&table, "JA_JP,en-us"), get_codepage(&table, "ja"));
}

#[test]
fn separator_equivalence() {
    let table = table();
    assert_eq!(get_codepage(&table, "en-US"), get_codepage(&table, "en_US"));
    assert_eq!(get_codepage(&table, "ja-JP"), get_codepage(&table, "ja_JP"));
}

#[test]
fn specificity_of_regions() {
    let table = table();
    assert_eq!(get_codepage(&table, "en-GB"), Some(cp_en_gb()));
    assert_ne!(get_codepage(&table, "en-GB"), get_codepage(&table, "en"));
    assert_eq!(get_codepage(&table, "en"), Some(cp_en_us()));
}

#[test]
fn candidate_fallback() {
    let table = table();
    assert_eq!(
        get_codepage(&table, "invalid_locale,en-US"),
        get_codepage(&table, "en-US")
    );
    assert_eq!(get_codepage(&table, "invalid_locale,en"), get_codepage(&table, "en_us"));
}

#[test]
fn first_match_wins() {
    let table = table();
    assert_eq!(get_codepage(&table, "ja,en"), get_codepage(&table, "ja"));
    assert_ne!(get_codepage(&table, "ja,en"), get_codepage(&table, "en"));
}

#[test]
fn unsupported_components_no_match() {
    let table = table();
    assert_eq!(get_codepage(&table, "zz-ZZ"), None);
}

#[test]
fn variant_assignment_skipped() {
    let table = table();
    assert_eq!(get_codepage(&table, "key=value"), None);
    assert_eq!(get_codepage(&table, "key=value,en"), get_codepage(&table, "en"));
    assert_eq!(get_codepage(&table, "ja=,en"), get_codepage(&table, "en"));
}

#[test]
fn empty_and_unmatched_no_match() {
    let table = table();
    assert_eq!(get_codepage(&table, ""), None);
    assert_eq!(get_codepage(&table, ","), None);
    assert_eq!(get_codepage(&table, "a=b,zz"), None);
    assert_eq!(get_codepage(&table, "aaaaaa,"), None);
}

#[test]
fn structural_node_stops_descent() {
    let mut inner = CpMap::new();
    inner.insert("y", TableNode::WithCP(CodePage::new(1250, 852), None));
    let mut root = CpMap::new();
    root.insert("x", TableNode::WithoutCP(inner));
    // A purely structural node ends the descent without contributing a
    // pair, even though the branch continues below it.
    assert_eq!(get_codepage(&root, "x-y"), None);
    assert_eq!(get_codepage(&root, "x"), None);
}
