use projector::codec::store_from;
use projector::projector::Projector;
use projector::store::ScopedStore;

fn s(text: &str) -> String {
    String::from(text)
}

fn get_data() -> ScopedStore {
    let mut store = ScopedStore::new();
    store.set(s("/"), s("foo"), s("bar1"));
    store.set(s("/"), s("fem"), s("is_great"));
    store.set(s("/foo"), s("foo"), s("bar2"));
    store.set(s("/foo/bar"), s("foo"), s("bar3"));
    store
}

fn get_projector(pwd: &str, data: ScopedStore) -> Projector {
    Projector::new(s(pwd), data)
}

#[test]
fn get_value() {
    let data = get_data();
    let proj = get_projector("/foo/bar", data);

    assert_eq!(proj.get_value("foo"), Some(&String::from("bar3")));
    assert_eq!(proj.get_value("fem"), Some(&String::from("is_great")));
}

#[test]
fn set_value() {
    let data = get_data();
    let mut proj = get_projector("/foo/bar", data);

    proj.set_value(String::from("foo"), String::from("baz"));
    proj.set_value(String::from("fem"), String::from("is_super_great"));
    assert_eq!(proj.get_value("foo"), Some(&String::from("baz")));
    assert_eq!(proj.get_value("fem"), Some(&String::from("is_super_great")));
}

#[test]
fn remove_value() {
    let data = get_data();
    let mut proj = get_projector("/foo/bar", data);

    proj.remove_value("foo");
    proj.remove_value("fem");
    assert_eq!(proj.get_value("foo"), Some(&String::from("bar2")));
    assert_eq!(proj.get_value("fem"), Some(&String::from("is_great")));
}

#[test]
fn get_value_of_unknown_key_is_none() {
    let proj = get_projector("/foo/bar", get_data());
    assert_eq!(proj.get_value("nope"), None);
}

#[test]
fn get_value_from_each_level() {
    assert_eq!(get_projector("/foo", get_data()).get_value("foo"), Some(&s("bar2")));
    assert_eq!(get_projector("/", get_data()).get_value("foo"), Some(&s("bar1")));
    assert_eq!(get_projector("/other/place", get_data()).get_value("foo"), Some(&s("bar1")));
    assert_eq!(get_projector("/foo/bar/deeper", get_data()).get_value("foo"), Some(&s("bar3")));
}

#[test]
fn sibling_scope_is_not_seen() {
    let mut store = get_data();
    store.set(s("/foo/baz"), s("only"), s("there"));
    let proj = get_projector("/foo/bar", store);
    assert_eq!(proj.get_value("only"), None);
}

#[test]
fn nearest_scope_wins_down_the_chain() {
    let mut proj = get_projector("/foo/bar", get_data());
    assert_eq!(proj.get_value("foo"), Some(&s("bar3")));
    proj.remove_value("foo");
    assert_eq!(proj.get_value("foo"), Some(&s("bar2")));

    let store = {
        let mut store = get_data();
        store.remove("/foo/bar", "foo");
        store.remove("/foo", "foo");
        store
    };
    let proj = get_projector("/foo/bar", store);
    assert_eq!(proj.get_value("foo"), Some(&s("bar1")));

    let store = {
        let mut store = get_data();
        store.remove("/foo/bar", "foo");
        store.remove("/foo", "foo");
        store.remove("/", "foo");
        store
    };
    let proj = get_projector("/foo/bar", store);
    assert_eq!(proj.get_value("foo"), None);
}

#[test]
fn get_all_value_merges_nearest_over_farthest() {
    let proj = get_projector("/foo/bar", get_data());
    let all = proj.get_all_value();
    assert_eq!(all.len(), 2);
    assert_eq!(all.get("foo"), Some(&s("bar3")));
    assert_eq!(all.get("fem"), Some(&s("is_great")));

    let proj = get_projector("/foo", get_data());
    let all = proj.get_all_value();
    assert_eq!(all.len(), 2);
    assert_eq!(all.get("foo"), Some(&s("bar2")));
    assert_eq!(all.get("fem"), Some(&s("is_great")));
}

#[test]
fn get_all_value_agrees_with_get_value() {
    let mut store = get_data();
    store.set(s("/foo"), s("mid"), s("level"));
    store.set(s("/foo/bar"), s("deep"), s("est"));
    for pwd in ["/", "/foo", "/foo/bar", "/foo/bar/baz", "/elsewhere"] {
        let copy = store_from(&store.to_dirs());
        let proj = get_projector(pwd, copy);
        let all = proj.get_all_value();
        for key in ["foo", "fem", "mid", "deep", "absent"] {
            assert_eq!(all.get(key), proj.get_value(key));
        }
    }
}

#[test]
fn get_all_value_of_empty_store_is_empty() {
    let proj = get_projector("/foo/bar", ScopedStore::new());
    assert_eq!(proj.get_all_value().len(), 0);
}

#[test]
fn set_value_writes_only_the_working_directory() {
    let mut proj = get_projector("/foo/bar", get_data());
    proj.set_value(s("fem"), s("is_super_great"));
    assert_eq!(proj.store().get("/foo/bar", "fem"), Some(&s("is_super_great")));
    assert_eq!(proj.store().get("/", "fem"), Some(&s("is_great")));
    assert_eq!(proj.store().get("/foo", "fem"), None);
    assert_eq!(proj.pwd(), &s("/foo/bar"));
}

#[test]
fn remove_value_leaves_ancestors_alone() {
    let mut proj = get_projector("/foo/bar", get_data());
    proj.remove_value("fem");
    assert_eq!(proj.store().get("/", "fem"), Some(&s("is_great")));
    proj.remove_value("foo");
    assert_eq!(proj.store().get("/foo/bar", "foo"), None);
    assert_eq!(proj.store().get("/foo", "foo"), Some(&s("bar2")));
    assert_eq!(proj.store().get("/", "foo"), Some(&s("bar1")));
}

#[test]
fn from_config_without_a_file_is_empty() {
    let proj = Projector::from_config(s("/foo/bar"), None);
    assert_eq!(proj.store().len(), 0);
    assert_eq!(proj.get_value("foo"), None);
    assert_eq!(proj.pwd(), &s("/foo/bar"));
}

#[test]
fn from_config_reads_the_document() {
    let text = "{\"projector\":{\"/\":{\"foo\":\"bar1\",\"fem\":\"is_great\"},\"/foo\":{\"foo\":\"bar2\"},\"/foo/bar\":{\"foo\":\"bar3\"}}}";
    let mut proj = Projector::from_config(s("/foo/bar"), Some(text));
    assert_eq!(proj.store().len(), 3);
    assert_eq!(proj.get_value("foo"), Some(&s("bar3")));
    assert_eq!(proj.get_value("fem"), Some(&s("is_great")));
    proj.remove_value("foo");
    proj.remove_value("fem");
    assert_eq!(proj.get_value("foo"), Some(&s("bar2")));
    assert_eq!(proj.get_value("fem"), Some(&s("is_great")));
}

#[test]
fn from_config_with_malformed_text_is_empty() {
    let proj = Projector::from_config(s("/foo/bar"), Some("{\"projector\":{}"));
    assert_eq!(proj.store().len(), 0);
    assert_eq!(proj.get_all_value().len(), 0);
}
