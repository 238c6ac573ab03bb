use anitok::keyword_manager::KeywordManager;

#[test]
fn test_new_keyword_manager() {
    let keyword_manager = KeywordManager::new();

    println!("{:#?}", keyword_manager);

    assert!(true);
}

#[test]
fn test_find_01() {
    let keyword_manager = KeywordManager::new();

    let ret = keyword_manager.find("MOVIE");

    println!("{:#?}", ret);

    if let Some(keyword) = ret {
        assert_eq!(String::from("MOVIE"), keyword.value);
    } else {
        panic!("No keyword found")
    }
}

#[test]
fn test_find_02() {
    let keyword_manager = KeywordManager::new();

    let ret = keyword_manager.find("S01");
    let ret2 = keyword_manager.find("EP01");
    let ret3 = keyword_manager.find("OP1");

    println!("{:#?}", ret);
    println!("{:#?}", ret2);
    println!("{:#?}", ret3);

    assert_eq!(String::from("S"), ret.unwrap().value);
    assert_eq!(String::from("EP"), ret2.unwrap().value);
    assert_eq!(String::from("OP"), ret3.unwrap().value);
}

#[test]
fn test_find_longest_prefix_non_standalone() {
    let keyword_manager = KeywordManager::new();

    // No standalone entry equals these literals, so the longest-prefix
    // combined / combined-or-separated entry must come back.
    assert_eq!(String::from("EPS."), keyword_manager.find("EPS.").unwrap().value);
    assert_eq!(String::from("EPISODES"), keyword_manager.find("EPISODES").unwrap().value);
    assert_eq!(String::from("SEASON"), keyword_manager.find("Season1").unwrap().value);
}

#[test]
fn test_find_standalone_wins() {
    let keyword_manager = KeywordManager::new();

    // MOVIE exists both standalone and combined-or-separated; the standalone
    // entry wins in `find`.
    let kw = keyword_manager.find("movie").unwrap();
    assert!(kw.is_standalone());
}

#[test]
fn test_find_many_keys_are_prefixes() {
    let keyword_manager = KeywordManager::new();

    let all = keyword_manager.find_many("OPENING1").unwrap();
    assert!(all.len() >= 4);
    for kw in &all {
        assert!("OPENING1".starts_with(&kw.value.to_uppercase()));
    }
}

#[test]
fn test_lookups_are_referentially_transparent() {
    let keyword_manager = KeywordManager::new();

    let a = keyword_manager.find("S01").unwrap();
    let b = keyword_manager.find("S01").unwrap();
    assert_eq!(a.value, b.value);
    assert_eq!(a.category, b.category);
    assert_eq!(a.kind, b.kind);
    assert_eq!(a.priority, b.priority);

    let m1 = keyword_manager.find_many("OP1").unwrap();
    let m2 = keyword_manager.find_many("OP1").unwrap();
    assert_eq!(m1.len(), m2.len());
    for (x, y) in m1.iter().zip(m2.iter()) {
        assert_eq!(x.value, y.value);
    }
}
