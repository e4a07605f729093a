use sync_color_schemes::cache::CacheStore;
use sync_color_schemes::fetch::{complete_fetch, parse_max_age, resolve_ttl};
use sync_color_schemes::registry::SchemeSet;
use sync_color_schemes::scheme::{
    apply_nightly_version, has_toml_extension, nightly_string, prepare_candidate, tarball_url,
    ParseError, ParsedScheme, PriorRecord, Scheme, SchemeMetaData, SourceDoc,
};
use sync_color_schemes::text::{make_ident, make_prefix, parse_u64, str_le};

fn scheme(name: &str, palette: &str) -> Scheme {
    Scheme {
        name: name.to_string(),
        file_name: None,
        palette: palette.to_string(),
        metadata: SchemeMetaData {
            aliases: Vec::new(),
            origin_url: None,
            wezterm_version: None,
        },
    }
}

#[test]
fn make_ident_splits_and_joins() {
    assert_eq!(make_ident("Foo Bar"), "foo-bar");
    assert_eq!(make_ident("  A--B!"), "a-b");
    assert_eq!(make_ident(""), "");
    assert_eq!(make_ident("Gruvbox (Gogh)"), "gruvbox-gogh");
}

#[test]
fn make_prefix_skips_punctuation() {
    assert_eq!(make_prefix("_Special"), ('s', "_special".to_string()));
    assert_eq!(make_prefix("1337"), ('1', "1337".to_string()));
    assert_eq!(make_prefix("Apple"), ('a', "apple".to_string()));
}

#[test]
fn parse_u64_matches_std() {
    assert_eq!(parse_u64("60"), Some(60));
    assert_eq!(parse_u64("+60"), Some(60));
    assert_eq!(parse_u64(""), None);
    assert_eq!(parse_u64("6a"), None);
    assert_eq!(parse_u64("18446744073709551615"), Some(u64::MAX));
    assert_eq!(parse_u64("18446744073709551616"), None);
}

#[test]
fn str_le_orders_by_code_point() {
    assert!(str_le("apple", "apple2"));
    assert!(str_le("Apple", "apple"));
    assert!(!str_le("b", "a"));
}

#[test]
fn max_age_parsing() {
    assert_eq!(parse_max_age("max-age=60"), Some(60));
    assert_eq!(parse_max_age("max-age="), None);
    assert_eq!(parse_max_age("max-age=abc"), None);
    assert_eq!(parse_max_age("public, max-age=60"), None);
    assert_eq!(parse_max_age("no-store"), None);
    assert_eq!(resolve_ttl(Some("max-age=120")), 120);
    assert_eq!(resolve_ttl(Some("no-store")), 86400);
    assert_eq!(resolve_ttl(None), 86400);
}

#[test]
fn ttl_respected_in_cache() {
    let mut store = CacheStore::new();
    store.write("https://example.com/a", vec![1, 2, 3], 60, 1000);
    assert_eq!(
        store.get_for_update("https://example.com/a", 1000),
        Some(vec![1, 2, 3])
    );
    assert_eq!(
        store.get_for_update("https://example.com/a", 1059),
        Some(vec![1, 2, 3])
    );
    assert_eq!(store.get_for_update("https://example.com/a", 1060), None);
    assert_eq!(store.get_for_update("https://example.com/b", 1000), None);
}

#[test]
fn warm_cache_answers_repeat_fetch() {
    let mut store = CacheStore::new();
    let got = complete_fetch(
        &mut store,
        "https://example.com/x",
        200,
        Some("max-age=60"),
        vec![9, 9],
        500,
    )
    .unwrap();
    assert_eq!(got, vec![9, 9]);
    // A second run inside the freshness window is served from the cache:
    // no network request is needed for this URL.
    assert_eq!(
        store.get_for_update("https://example.com/x", 559),
        Some(vec![9, 9])
    );
}

#[test]
fn failed_fetch_is_not_cached() {
    let mut store = CacheStore::new();
    let r = complete_fetch(
        &mut store,
        "https://example.com/missing",
        404,
        None,
        b"not found".to_vec(),
        500,
    );
    let err = r.err().expect("non-success status must fail");
    assert_eq!(err.body, b"not found".to_vec());
    assert_eq!(store.get_for_update("https://example.com/missing", 500), None);
    assert_eq!(store.entries.len(), 0);
}

#[test]
fn alias_transitivity() {
    let mut set = SchemeSet::new();
    set.add(scheme("Alpha", "p1"));
    set.add(scheme("Beta", "p1"));
    assert_eq!(set.by_name.len(), 1);
    assert_eq!(set.by_name[0].name, "Alpha");
    assert_eq!(set.by_name[0].metadata.aliases, vec!["Beta".to_string()]);
}

#[test]
fn version_propagation_from_prior_palette() {
    let prior = vec![PriorRecord {
        name: "Foo".to_string(),
        aliases: Vec::new(),
        wezterm_version: Some("20230101".to_string()),
        origin_url: None,
        palette: "pal".to_string(),
        has_ansi: false,
    }];
    let mut set = SchemeSet::load_existing(prior);
    set.add(scheme("Bar", "pal"));
    assert_eq!(set.by_name.len(), 1);
    assert_eq!(set.by_name[0].name, "Bar");
    assert_eq!(
        set.by_name[0].metadata.wezterm_version,
        Some("20230101".to_string())
    );
}

#[test]
fn version_propagation_from_prior_name() {
    let prior = vec![PriorRecord {
        name: "Foo".to_string(),
        aliases: vec!["OldFoo".to_string()],
        wezterm_version: Some("20220101".to_string()),
        origin_url: None,
        palette: "pal".to_string(),
        has_ansi: false,
    }];
    let mut set = SchemeSet::load_existing(prior);
    // Different palette, but the alias name is indexed from the prior run.
    let mut c = scheme("New", "other");
    c.metadata.aliases.push("OldFoo".to_string());
    set.add(c);
    assert_eq!(
        set.by_name[0].metadata.wezterm_version,
        Some("20220101".to_string())
    );
}

#[test]
fn name_collision_carries_aliases_forward() {
    let mut set = SchemeSet::new();
    let mut foo = scheme("Foo", "old-palette");
    foo.metadata.aliases = vec!["F1".to_string(), "F2".to_string()];
    set.add(foo);
    // A content update under the same name, not caught by palette match.
    set.add(scheme("Foo", "new-palette"));
    assert_eq!(set.by_name.len(), 1);
    assert_eq!(set.by_name[0].palette, "new-palette");
    assert_eq!(
        set.by_name[0].metadata.aliases,
        vec!["F1".to_string(), "F2".to_string()]
    );
}

#[test]
fn sort_order_of_finalize() {
    let mut set = SchemeSet::new();
    set.add(scheme("_Special", "p1"));
    set.add(scheme("1337", "p2"));
    set.add(scheme("Apple", "p3"));
    set.add(scheme("apple2", "p4"));
    let (sorted, _new_names) = set.finalize();
    let names: Vec<String> = sorted.iter().map(|s| s.name.clone()).collect();
    // `_Special` sorts under `s`, after the `a` bucket; `Apple` ties with
    // `apple2` by case-folded full name.
    assert_eq!(names, vec!["1337", "Apple", "apple2", "_Special"]);
}

#[test]
fn finalize_normalizes_aliases() {
    let mut set = SchemeSet::new();
    let mut s = scheme("Main", "p");
    s.metadata.aliases = vec![
        "zeta".to_string(),
        "alpha".to_string(),
        "Main".to_string(),
        "alpha".to_string(),
    ];
    set.add(s);
    let (sorted, _) = set.finalize();
    assert_eq!(
        sorted[0].metadata.aliases,
        vec!["alpha".to_string(), "zeta".to_string()]
    );
}

#[test]
fn finalize_reports_unreleased_names() {
    let mut set = SchemeSet::new();
    let mut fresh = scheme("Fresh", "p1");
    apply_nightly_version(&mut fresh.metadata);
    set.add(fresh);
    let mut old = scheme("Old", "p2");
    old.metadata.wezterm_version = Some("20230101".to_string());
    set.add(old);
    let (_, new_names) = set.finalize();
    assert_eq!(new_names, vec!["Fresh".to_string()]);
}

#[test]
fn accumulate_applies_in_order() {
    let mut set = SchemeSet::new();
    set.accumulate(vec![scheme("One", "p1"), scheme("Two", "p1"), scheme("Three", "p2")]);
    assert_eq!(set.by_name.len(), 2);
    assert_eq!(set.by_name[0].name, "One");
    assert_eq!(set.by_name[0].metadata.aliases, vec!["Two".to_string()]);
    assert_eq!(set.by_name[1].name, "Three");
}

#[test]
fn repeated_aggregation_is_stable() {
    let batch = || {
        vec![
            scheme("Alpha", "p1"),
            scheme("Beta", "p1"),
            scheme("Gamma", "p2"),
        ]
    };
    let mut once = SchemeSet::new();
    once.accumulate(batch());
    let (out1, new1) = once.finalize();

    let mut twice = SchemeSet::new();
    twice.accumulate(batch());
    twice.accumulate(batch());
    let (out2, new2) = twice.finalize();

    assert_eq!(out1.len(), out2.len());
    for (a, b) in out1.iter().zip(out2.iter()) {
        assert_eq!(a.name, b.name);
        assert_eq!(a.palette, b.palette);
        assert_eq!(a.metadata.aliases, b.metadata.aliases);
        assert_eq!(a.metadata.wezterm_version, b.metadata.wezterm_version);
    }
    assert_eq!(new1, new2);
}

#[test]
fn one_malformed_document_among_ten() {
    let mut docs = Vec::new();
    for i in 0..10 {
        if i == 3 {
            docs.push(SourceDoc {
                file_stem: format!("doc{}", i),
                parsed: Err(ParseError {
                    message: "unexpected token".to_string(),
                }),
            });
        } else {
            docs.push(SourceDoc {
                file_stem: format!("doc{}", i),
                parsed: Ok(ParsedScheme {
                    name: None,
                    palette: format!("palette{}", i),
                    aliases: Vec::new(),
                    origin_url: None,
                }),
            });
        }
    }
    let mut set = SchemeSet::new();
    let failures = set.merge_parsed("https://example.com/repo", "", docs);
    assert_eq!(set.by_name.len(), 9);
    assert_eq!(failures.len(), 1);
    assert_eq!(failures[0].message, "unexpected token");
}

#[test]
fn prepare_candidate_defaults() {
    let parsed = ParsedScheme {
        name: None,
        palette: "p".to_string(),
        aliases: Vec::new(),
        origin_url: None,
    };
    let c = prepare_candidate(parsed, "stemname".to_string(), "https://example.com/r", " (Gogh)");
    assert_eq!(c.name, "stemname (Gogh)");
    assert_eq!(
        c.metadata.origin_url,
        Some("https://example.com/r".to_string())
    );
    assert_eq!(c.metadata.wezterm_version, Some(nightly_string()));
    assert_eq!(nightly_string(), "nightly builds only");
}

#[test]
fn tarball_url_by_host() {
    assert_eq!(
        tarball_url("https://github.com/x/y", "main"),
        "https://github.com/x/y/tarball/main"
    );
    assert_eq!(
        tarball_url("https://codeberg.org/x/y", "main"),
        "https://codeberg.org/x/y/archive/main.tar.gz"
    );
}

#[test]
fn toml_path_filter() {
    assert!(has_toml_extension("a/b.toml"));
    assert!(has_toml_extension("x.toml"));
    assert!(!has_toml_extension(".toml"));
    assert!(!has_toml_extension("a/.toml"));
    assert!(!has_toml_extension("a/b.yaml"));
    assert!(!has_toml_extension("toml"));
}

#[test]
fn load_existing_skips_placeholders() {
    let prior = vec![
        PriorRecord {
            name: "Real".to_string(),
            aliases: Vec::new(),
            wezterm_version: Some("20230101".to_string()),
            origin_url: Some("https://example.com".to_string()),
            palette: "p1".to_string(),
            has_ansi: true,
        },
        PriorRecord {
            name: "Placeholder".to_string(),
            aliases: Vec::new(),
            wezterm_version: Some("20230101".to_string()),
            origin_url: None,
            palette: "p2".to_string(),
            has_ansi: false,
        },
    ];
    let set = SchemeSet::load_existing(prior);
    assert_eq!(set.by_name.len(), 1);
    assert_eq!(set.by_name[0].name, "Real");
    assert_eq!(set.version_by_name.len(), 2);
    assert_eq!(set.version_by_color_scheme.len(), 2);
}
