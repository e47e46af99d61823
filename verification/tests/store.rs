use projector::bindings::Bindings;
use projector::codec::{
    bindings_from, default_data, document_of, load, render, store_from, store_of_document,
};
use projector::path::{ancestors_of, parent_dir};
use projector::store::ScopedStore;

fn s(text: &str) -> String {
    String::from(text)
}

fn listing(store: &ScopedStore) -> Vec<(String, Vec<(String, String)>)> {
    let mut out = store.to_dirs();
    for (_, pairs) in out.iter_mut() {
        pairs.sort();
    }
    out.sort();
    out
}

#[test]
fn store_get_reads_one_scope_only() {
    let mut store = ScopedStore::new();
    store.set(s("/"), s("foo"), s("bar1"));
    assert_eq!(store.get("/", "foo"), Some(&s("bar1")));
    assert_eq!(store.get("/foo", "foo"), None);
    assert_eq!(store.get("/", "fem"), None);
}

#[test]
fn store_set_twice_is_set_once() {
    let mut once = ScopedStore::new();
    once.set(s("/a"), s("x"), s("1"));
    once.set(s("/a/b"), s("k"), s("v"));
    let mut twice = ScopedStore::new();
    twice.set(s("/a"), s("x"), s("1"));
    twice.set(s("/a/b"), s("k"), s("v"));
    twice.set(s("/a/b"), s("k"), s("v"));
    assert_eq!(listing(&once), listing(&twice));
    assert_eq!(twice.len(), 2);
}

#[test]
fn store_set_overwrites() {
    let mut store = ScopedStore::new();
    store.set(s("/a"), s("k"), s("v1"));
    store.set(s("/a"), s("k"), s("v2"));
    assert_eq!(store.get("/a", "k"), Some(&s("v2")));
    assert_eq!(listing(&store), vec![(s("/a"), vec![(s("k"), s("v2"))])]);
}

#[test]
fn store_remove_after_set() {
    let mut store = ScopedStore::new();
    store.set(s("/a"), s("other"), s("kept"));
    store.set(s("/b"), s("k"), s("elsewhere"));
    store.set(s("/a"), s("k"), s("v"));
    store.remove("/a", "k");
    assert_eq!(store.get("/a", "k"), None);
    assert_eq!(store.get("/a", "other"), Some(&s("kept")));
    assert_eq!(store.get("/b", "k"), Some(&s("elsewhere")));
}

#[test]
fn store_remove_of_last_key_keeps_the_scope() {
    let mut store = ScopedStore::new();
    store.set(s("/a"), s("k"), s("v"));
    store.remove("/a", "k");
    assert_eq!(store.len(), 1);
    assert_eq!(store.to_dirs(), vec![(s("/a"), vec![])]);
    assert_eq!(store.scope("/a").map(|b| b.len()), Some(0));
}

#[test]
fn store_remove_of_absent_scope_or_key_changes_nothing() {
    let mut store = ScopedStore::new();
    store.set(s("/a"), s("k"), s("v"));
    let before = listing(&store);
    store.remove("/nowhere", "k");
    store.remove("/a", "nothing");
    assert_eq!(listing(&store), before);
}

#[test]
fn store_put_scope_replaces_the_whole_mapping() {
    let mut store = ScopedStore::new();
    store.set(s("/a"), s("old"), s("1"));
    let mut b = Bindings::new();
    b.insert(s("new"), s("2"));
    store.put_scope(s("/a"), b);
    assert_eq!(listing(&store), vec![(s("/a"), vec![(s("new"), s("2"))])]);
}

#[test]
fn bindings_insert_get_remove() {
    let mut b = Bindings::new();
    assert_eq!(b.len(), 0);
    b.insert(s("k"), s("v1"));
    b.insert(s("j"), s("w"));
    b.insert(s("k"), s("v2"));
    assert_eq!(b.len(), 2);
    assert_eq!(b.get("k"), Some(&s("v2")));
    b.remove("k");
    assert_eq!(b.get("k"), None);
    assert_eq!(b.get("j"), Some(&s("w")));
    b.remove("k");
    assert_eq!(b.len(), 1);
}

#[test]
fn bindings_extend_from_prefers_the_other() {
    let mut near = Bindings::new();
    near.insert(s("foo"), s("bar2"));
    let mut far = Bindings::new();
    far.insert(s("foo"), s("bar1"));
    far.insert(s("fem"), s("is_great"));
    far.extend_from(&near);
    assert_eq!(far.len(), 2);
    assert_eq!(far.get("foo"), Some(&s("bar2")));
    assert_eq!(far.get("fem"), Some(&s("is_great")));
}

#[test]
fn parent_dir_drops_the_last_component() {
    assert_eq!(parent_dir("/foo/bar"), Some(s("/foo")));
    assert_eq!(parent_dir("/foo"), Some(s("/")));
    assert_eq!(parent_dir("/"), None);
    assert_eq!(parent_dir("foo"), Some(s("")));
    assert_eq!(parent_dir(""), None);
}

#[test]
fn ancestors_of_ends_at_the_root() {
    assert_eq!(ancestors_of("/foo/bar"), vec![s("/foo/bar"), s("/foo"), s("/")]);
    assert_eq!(ancestors_of("/"), vec![s("/")]);
    assert_eq!(ancestors_of("foo/bar"), vec![s("foo/bar"), s("foo"), s("")]);
}

#[test]
fn load_of_malformed_text_is_the_empty_store() {
    assert_eq!(load("{\"projector\":{}").len(), 0);
    assert_eq!(load("").len(), 0);
    assert_eq!(load("not json").len(), 0);
    assert_eq!(load("{\"projector\":{\"/\":{\"foo\":1}}}").len(), 0);
    assert_eq!(load("[1,2,3]").len(), 0);
}

#[test]
fn load_of_a_document_without_the_field_is_the_empty_store() {
    assert_eq!(load("{}").len(), 0);
    assert_eq!(load("{\"other\":{}}").len(), 0);
}

#[test]
fn load_of_the_empty_document() {
    assert_eq!(load("{\"projector\":{}}").len(), 0);
}

#[test]
fn load_reads_every_scope() {
    let store = load(
        "{\"projector\":{\"/\":{\"foo\":\"bar1\",\"fem\":\"is_great\"},\"/foo\":{\"foo\":\"bar2\"},\"/gone\":{}}}",
    );
    assert_eq!(
        listing(&store),
        vec![
            (s("/"), vec![(s("fem"), s("is_great")), (s("foo"), s("bar1"))]),
            (s("/foo"), vec![(s("foo"), s("bar2"))]),
            (s("/gone"), vec![]),
        ]
    );
}

#[test]
fn store_of_document_reads_the_named_field() {
    let doc = vec![
        (s("other"), vec![(s("/x"), vec![(s("a"), s("b"))])]),
        (s("projector"), vec![(s("/"), vec![(s("foo"), s("bar1"))]), (s("/empty"), vec![])]),
    ];
    let store = store_of_document(&doc);
    assert_eq!(
        listing(&store),
        vec![(s("/"), vec![(s("foo"), s("bar1"))]), (s("/empty"), vec![])]
    );
    assert_eq!(store_of_document(&vec![]).len(), 0);
}

#[test]
fn store_from_lets_the_later_entry_count() {
    let dirs = vec![
        (s("/a"), vec![(s("k"), s("1")), (s("k"), s("2"))]),
        (s("/a"), vec![(s("z"), s("9"))]),
    ];
    let store = store_from(&dirs);
    assert_eq!(listing(&store), vec![(s("/a"), vec![(s("z"), s("9"))])]);
    let b = bindings_from(&vec![(s("k"), s("1")), (s("k"), s("2"))]);
    assert_eq!(b.len(), 1);
    assert_eq!(b.get("k"), Some(&s("2")));
}

#[test]
fn default_data_is_empty() {
    let store = default_data();
    assert_eq!(store.len(), 0);
    assert_eq!(store.get("/", "foo"), None);
}

#[test]
fn to_pairs_lists_every_pair_once() {
    let mut b = Bindings::new();
    b.insert(s("k"), s("v1"));
    b.insert(s("j"), s("w"));
    b.insert(s("k"), s("v2"));
    assert_eq!(b.to_pairs(), vec![(s("k"), s("v2")), (s("j"), s("w"))]);
    assert_eq!(Bindings::new().to_pairs(), vec![]);
}

#[test]
fn to_dirs_lists_every_scope() {
    let mut store = ScopedStore::new();
    store.set(s("/"), s("foo"), s("bar1"));
    store.set(s("/foo"), s("foo"), s("bar2"));
    store.set(s("/"), s("fem"), s("is_great"));
    store.remove("/foo", "foo");
    assert_eq!(
        store.to_dirs(),
        vec![
            (s("/"), vec![(s("foo"), s("bar1")), (s("fem"), s("is_great"))]),
            (s("/foo"), vec![]),
        ]
    );
}

#[test]
fn document_of_reads_back_as_the_same_store() {
    let mut store = ScopedStore::new();
    store.set(s("/"), s("foo"), s("bar1"));
    store.set(s("/foo"), s("foo"), s("bar2"));
    store.set(s("/foo/bar"), s("gone"), s("soon"));
    store.remove("/foo/bar", "gone");
    let doc = document_of(&store);
    assert_eq!(doc.len(), 1);
    assert_eq!(doc[0].0, s("projector"));
    let back = store_of_document(&doc);
    assert_eq!(listing(&back), listing(&store));
    assert_eq!(back.len(), 3);
}

#[test]
fn render_writes_one_object() {
    let mut b = Bindings::new();
    b.insert(s("foo"), s("bar3"));
    b.insert(s("fem"), s("is_great"));
    assert_eq!(render(&b), Ok(s("{\"fem\":\"is_great\",\"foo\":\"bar3\"}")));
    assert_eq!(render(&Bindings::new()), Ok(s("{}")));
    let mut q = Bindings::new();
    q.insert(s("a\"b"), s("c\nd"));
    assert_eq!(render(&q), Ok(s("{\"a\\\"b\":\"c\\nd\"}")));
}
