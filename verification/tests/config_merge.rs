use trust_store::config::{
    is_local_lang_config_trusted, layered_config, merge_toml_values, parse_config,
    user_lang_config, ConfigValue, MERGE_DEPTH,
};
use trust_store::trust_db::{trust_file, trust_workspace, TrustDb};

fn s(text: &str) -> ConfigValue {
    ConfigValue::String(text.to_string())
}

fn table(entries: Vec<(&str, ConfigValue)>) -> ConfigValue {
    ConfigValue::Table(entries.into_iter().map(|(k, v)| (k.to_string(), v)).collect())
}

fn tool(name: &str, run: &str) -> ConfigValue {
    table(vec![("name", s(name)), ("run", s(run))])
}

#[test]
fn merge_replaces_arrays_wholesale() {
    let baseline = table(vec![(
        "tools",
        table(vec![("entries", ConfigValue::Array(vec![tool("alpha", "fmt-a")]))]),
    )]);
    let overlay = table(vec![(
        "tools",
        table(vec![("entries", ConfigValue::Array(vec![tool("alpha", "fmt-b")]))]),
    )]);
    let merged = merge_toml_values(baseline, overlay, MERGE_DEPTH);
    assert_eq!(
        merged,
        table(vec![(
            "tools",
            table(vec![("entries", ConfigValue::Array(vec![tool("alpha", "fmt-b")]))]),
        )])
    );
}

#[test]
fn merge_does_not_union_arrays() {
    let baseline = table(vec![("list", ConfigValue::Array(vec![tool("alpha", "a"), tool("beta", "b")]))]);
    let overlay = table(vec![("list", ConfigValue::Array(vec![tool("gamma", "c")]))]);
    assert_eq!(
        merge_toml_values(baseline, overlay, MERGE_DEPTH),
        table(vec![("list", ConfigValue::Array(vec![tool("gamma", "c")]))])
    );
}

#[test]
fn merge_depth_is_three() {
    assert_eq!(MERGE_DEPTH, 3);
}

#[test]
fn merge_keeps_base_keys_and_appends_new_ones() {
    let baseline = table(vec![("a", ConfigValue::Integer(1)), ("b", ConfigValue::Integer(2))]);
    let overlay = table(vec![("c", ConfigValue::Integer(3)), ("a", ConfigValue::Integer(10))]);
    assert_eq!(
        merge_toml_values(baseline, overlay, MERGE_DEPTH),
        table(vec![
            ("a", ConfigValue::Integer(10)),
            ("b", ConfigValue::Integer(2)),
            ("c", ConfigValue::Integer(3)),
        ])
    );
}

#[test]
fn merge_recurses_through_three_levels_of_tables() {
    let deep = |leaf: Vec<(&str, ConfigValue)>| {
        table(vec![("l1", table(vec![("l2", table(vec![("l3", table(leaf))]))]))])
    };
    let baseline = table(vec![(
        "l1",
        table(vec![
            ("keep1", ConfigValue::Boolean(true)),
            (
                "l2",
                table(vec![
                    ("keep2", ConfigValue::Boolean(true)),
                    ("l3", table(vec![("x", ConfigValue::Integer(1)), ("y", ConfigValue::Integer(2))])),
                ]),
            ),
        ]),
    )]);
    let overlay = deep(vec![("x", ConfigValue::Integer(9))]);
    let merged = merge_toml_values(baseline, overlay, MERGE_DEPTH);
    assert_eq!(
        merged,
        table(vec![(
            "l1",
            table(vec![
                ("keep1", ConfigValue::Boolean(true)),
                (
                    "l2",
                    table(vec![
                        ("keep2", ConfigValue::Boolean(true)),
                        ("l3", table(vec![("x", ConfigValue::Integer(9))])),
                    ]),
                ),
            ]),
        )])
    );
}

#[test]
fn merge_with_depth_zero_replaces() {
    let baseline = table(vec![("a", ConfigValue::Integer(1))]);
    let overlay = table(vec![("b", ConfigValue::Integer(2))]);
    assert_eq!(
        merge_toml_values(baseline, overlay, 0),
        table(vec![("b", ConfigValue::Integer(2))])
    );
}

#[test]
fn merge_with_depth_one_replaces_nested_tables() {
    let baseline = table(vec![("t", table(vec![("a", ConfigValue::Integer(1))])), ("u", s("x"))]);
    let overlay = table(vec![("t", table(vec![("b", ConfigValue::Integer(2))]))]);
    assert_eq!(
        merge_toml_values(baseline, overlay, 1),
        table(vec![("t", table(vec![("b", ConfigValue::Integer(2))])), ("u", s("x"))])
    );
}

#[test]
fn merge_scalar_over_table_and_table_over_scalar() {
    assert_eq!(merge_toml_values(table(vec![("a", s("x"))]), s("y"), MERGE_DEPTH), s("y"));
    assert_eq!(
        merge_toml_values(s("y"), table(vec![("a", s("x"))]), MERGE_DEPTH),
        table(vec![("a", s("x"))])
    );
    assert_eq!(
        merge_toml_values(ConfigValue::Float { bits: 1 }, ConfigValue::Datetime("1979-05-27".to_string()), 3),
        ConfigValue::Datetime("1979-05-27".to_string())
    );
}

#[test]
fn effective_config_folds_global_then_local() {
    let baseline = || table(vec![("k", s("base")), ("only_base", ConfigValue::Integer(0))]);
    let global = || table(vec![("k", s("global")), ("g", ConfigValue::Integer(1))]);
    let local = || table(vec![("k", s("local"))]);
    assert_eq!(
        layered_config(true, baseline(), Some(global()), Some(local())),
        table(vec![("k", s("local")), ("only_base", ConfigValue::Integer(0)), ("g", ConfigValue::Integer(1))])
    );
    assert_eq!(
        layered_config(true, baseline(), None, Some(local())),
        table(vec![("k", s("local")), ("only_base", ConfigValue::Integer(0))])
    );
    assert_eq!(layered_config(true, baseline(), None, None), baseline());
}

#[test]
fn effective_config_without_local_ignores_local() {
    let baseline = || table(vec![("k", s("base"))]);
    let global = || table(vec![("k", s("global"))]);
    let local = || table(vec![("k", s("local")), ("extra", ConfigValue::Boolean(true))]);
    let expected = table(vec![("k", s("global"))]);
    assert_eq!(layered_config(false, baseline(), Some(global()), Some(local())), expected);
    assert_eq!(layered_config(false, baseline(), Some(global()), None), expected);
    assert_eq!(layered_config(false, baseline(), None, Some(local())), baseline());
}

#[test]
fn local_config_untrusted_when_file_is_absent() {
    let mut db = TrustDb::new();
    trust_workspace(&mut db, Some("/ws"), true);
    assert!(!is_local_lang_config_trusted(&db, Some("/ws/.helix/languages.toml"), None));
    assert!(!is_local_lang_config_trusted(&db, None, None));
}

#[test]
fn local_config_trust_follows_file_trust() {
    let mut db = TrustDb::new();
    let path = Some("/ws/.helix/languages.toml");
    assert!(!is_local_lang_config_trusted(&db, path, Some(b"a = 1")));
    trust_file(&mut db, path, b"a = 1");
    assert!(is_local_lang_config_trusted(&db, path, Some(b"a = 1")));
    assert!(!is_local_lang_config_trusted(&db, path, Some(b"a = 2")));
    assert!(!is_local_lang_config_trusted(&db, None, Some(b"a = 1")));
    trust_workspace(&mut db, Some("/ws"), true);
    assert!(is_local_lang_config_trusted(&db, path, Some(b"a = 2")));
}

#[test]
fn parse_config_reads_a_document() {
    let parsed = parse_config("title = \"x\"\ncount = 3\nflag = true\n[tools]\nentries = [1, 2]\n");
    assert_eq!(
        parsed,
        Some(table(vec![
            ("count", ConfigValue::Integer(3)),
            ("flag", ConfigValue::Boolean(true)),
            ("title", s("x")),
            (
                "tools",
                table(vec![("entries", ConfigValue::Array(vec![ConfigValue::Integer(1), ConfigValue::Integer(2)]))]),
            ),
        ]))
    );
}

#[test]
fn parse_config_keeps_floats_by_bits_and_datetimes_by_text() {
    assert_eq!(
        parse_config("x = 1.5\nd = 1979-05-27\n"),
        Some(table(vec![
            ("d", ConfigValue::Datetime("1979-05-27".to_string())),
            ("x", ConfigValue::Float { bits: 1.5f64.to_bits() }),
        ]))
    );
}

#[test]
fn parse_config_rejects_malformed_text() {
    assert_eq!(parse_config("this is = = not toml"), None);
    assert_eq!(parse_config("[unclosed"), None);
    assert_eq!(parse_config(""), Some(table(vec![])));
}

#[test]
fn user_config_merges_layers_in_order() {
    let baseline = || parse_config("[tools]\nname = \"base\"\nkeep = 1\n").unwrap();
    let global = "[tools]\nname = \"global\"\n";
    let local = "[tools]\nname = \"local\"\nextra = true\n";
    assert_eq!(
        user_lang_config(true, baseline(), Some(global), Some(local)),
        table(vec![(
            "tools",
            table(vec![("keep", ConfigValue::Integer(1)), ("name", s("local")), ("extra", ConfigValue::Boolean(true))]),
        )])
    );
    assert_eq!(
        user_lang_config(false, baseline(), Some(global), Some(local)),
        table(vec![("tools", table(vec![("keep", ConfigValue::Integer(1)), ("name", s("global"))]))])
    );
}

#[test]
fn user_config_skips_missing_and_malformed_layers() {
    let baseline = || parse_config("a = 1\n").unwrap();
    assert_eq!(user_lang_config(true, baseline(), None, None), baseline());
    assert_eq!(user_lang_config(true, baseline(), Some("= broken"), Some("[[[")), baseline());
    assert_eq!(
        user_lang_config(true, baseline(), Some("= broken"), Some("a = 2\n")),
        table(vec![("a", ConfigValue::Integer(2))])
    );
    assert_eq!(user_lang_config(false, baseline(), None, Some("[[[")), baseline());
    assert_eq!(user_lang_config(false, baseline(), None, Some("a = 2\n")), baseline());
}

#[test]
fn user_config_example_replaces_entries_array() {
    let baseline = parse_config("[[tools.entries]]\nname = \"alpha\"\nrun = \"fmt-a\"\n").unwrap();
    let overlay = "[[tools.entries]]\nname = \"alpha\"\nrun = \"fmt-b\"\n";
    assert_eq!(
        user_lang_config(false, baseline, Some(overlay), None),
        table(vec![(
            "tools",
            table(vec![("entries", ConfigValue::Array(vec![tool("alpha", "fmt-b")]))]),
        )])
    );
}
