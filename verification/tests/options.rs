use fed::options::{option_key_of, sorted_unique_by_key, sorted_unique_options, OpenOption, OptionKey};

fn option(name: &str, id: Option<&str>, path: Option<&str>) -> OpenOption {
    OpenOption {
        name: name.to_string(),
        id: id.map(|s| s.to_string()),
        path: path.map(|s| s.to_string()),
    }
}

fn names(options: Vec<OpenOption>) -> Vec<String> {
    options.into_iter().map(|option| option.name).collect()
}

#[test]
fn sorted_unique_options_are_deterministic() {
    let options = vec![
        OpenOption {
            name: "Beta".to_string(),
            id: Some("two".to_string()),
            path: Some("/Applications/Beta.app".to_string()),
        },
        OpenOption {
            name: "alpha".to_string(),
            id: Some("one".to_string()),
            path: Some("/Applications/Alpha.app".to_string()),
        },
        OpenOption {
            name: "alpha".to_string(),
            id: Some("one".to_string()),
            path: Some("/Applications/Alpha.app".to_string()),
        },
    ];

    let names: Vec<_> = sorted_unique_options(options)
        .into_iter()
        .map(|option| option.name)
        .collect();

    assert_eq!(names, ["alpha", "Beta"]);
}

#[test]
fn unnamed_options_are_left_out() {
    let listed = sorted_unique_options(vec![
        option("", Some("ghost"), None),
        option("Viewer", None, None),
    ]);
    assert_eq!(names(listed), ["Viewer"]);
}

#[test]
fn empty_input_lists_nothing() {
    assert!(sorted_unique_options(Vec::new()).is_empty());
}

#[test]
fn first_option_of_a_key_is_kept() {
    // Same key up to case: the first one given stays, spelled as given.
    let listed = sorted_unique_options(vec![
        option("EDITOR", Some("ed.desktop"), Some("/usr/share/applications/ed.desktop")),
        option("editor", Some("ED.desktop"), Some("/usr/share/applications/ED.desktop")),
    ]);
    assert_eq!(listed.len(), 1);
    assert_eq!(listed[0].name, "EDITOR");
    assert_eq!(listed[0].id.as_deref(), Some("ed.desktop"));
}

#[test]
fn options_differing_in_path_are_both_kept() {
    let listed = sorted_unique_options(vec![
        option("Viewer", None, Some("/b/Viewer.app")),
        option("Viewer", None, Some("/a/Viewer.app")),
    ]);
    assert_eq!(listed.len(), 2);
    assert_eq!(listed[0].path.as_deref(), Some("/a/Viewer.app"));
    assert_eq!(listed[1].path.as_deref(), Some("/b/Viewer.app"));
}

#[test]
fn missing_identifier_orders_before_any_identifier() {
    let listed = sorted_unique_options(vec![
        option("Viewer", Some("b"), None),
        option("Viewer", None, None),
        option("Viewer", Some("a"), None),
    ]);
    let ids: Vec<Option<String>> = listed.into_iter().map(|o| o.id).collect();
    assert_eq!(ids, [None, Some("a".to_string()), Some("b".to_string())]);
}

#[test]
fn order_is_by_lowercased_name_then_code_point() {
    let listed = sorted_unique_options(vec![
        option("zeta", None, None),
        option("Émile", None, None),
        option("Zulu", None, None),
        option("apple", None, None),
        option("Banana", None, None),
    ]);
    // "é" (U+00E9) comes after every ASCII letter.
    assert_eq!(names(listed), ["apple", "Banana", "zeta", "Zulu", "Émile"]);
}

#[test]
fn order_does_not_depend_on_input_order() {
    let forward = sorted_unique_options(vec![
        option("Gamma", None, None),
        option("alpha", None, None),
        option("Beta", None, None),
    ]);
    let backward = sorted_unique_options(vec![
        option("Beta", None, None),
        option("alpha", None, None),
        option("Gamma", None, None),
    ]);
    assert_eq!(forward, backward);
    assert_eq!(names(forward), ["alpha", "Beta", "Gamma"]);
}

#[test]
fn listing_twice_changes_nothing() {
    let once = sorted_unique_options(vec![
        option("b", None, None),
        option("A", None, None),
        option("a", None, None),
    ]);
    let twice = sorted_unique_options(once.clone());
    assert_eq!(once, twice);
}

#[test]
fn keys_are_lowercased() {
    let key = option_key_of(&option("ÄBC", Some("Id"), Some("/X/Y")));
    assert_eq!(key.name, "äbc");
    assert_eq!(key.id, "id");
    assert_eq!(key.path, "/x/y");
    let bare = option_key_of(&option("N", None, None));
    assert_eq!(bare.id, "");
    assert_eq!(bare.path, "");
}

#[test]
fn listing_by_given_keys_follows_those_keys() {
    let key = |name: &str| OptionKey {
        name: name.to_string(),
        id: String::new(),
        path: String::new(),
    };
    let listed = sorted_unique_by_key(
        vec![option("first", None, None), option("second", None, None), option("third", None, None)],
        vec![key("m"), key("a"), key("m")],
    );
    assert_eq!(names(listed), ["second", "first"]);
}

#[test]
fn listed_keys_do_not_depend_on_order_even_when_keys_collide() {
    let xs = vec![
        option("EDITOR", None, None),
        option("viewer", None, None),
        option("editor", None, None),
    ];
    let ys = vec![xs[2].clone(), xs[1].clone(), xs[0].clone()];
    let key_names = |l: Vec<OpenOption>| -> Vec<String> {
        l.iter().map(|o| option_key_of(o).name).collect()
    };
    let lx = sorted_unique_options(xs);
    let ly = sorted_unique_options(ys);
    assert_eq!(names(lx.clone()), ["EDITOR", "viewer"]);
    assert_eq!(names(ly.clone()), ["editor", "viewer"]);
    assert_eq!(key_names(lx), key_names(ly));
}
