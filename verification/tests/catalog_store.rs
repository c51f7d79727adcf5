use savescummer_catalog::catalog_store::{etag_to_send, fetch_result, recorded, sha256, store_steps, Meta, StoreStep};
use savescummer_catalog::host::{Fetched, Outcome};

/// The catalog folder, in memory.
#[derive(Default)]
struct Folder {
    current: Option<Vec<u8>>,
    previous: Option<Vec<u8>>,
    meta: Option<Meta>,
}

fn bundle(revision: &str) -> Vec<u8> {
    format!(r#"{{"schema":1,"source":{{"repo":"r","revision":"{revision}"}},"games":[]}}"#).into_bytes()
}

fn revision(bytes: &[u8]) -> Option<String> {
    let value: serde_json::Value = serde_json::from_slice(bytes).ok()?;
    value.get("source")?.get("revision")?.as_str().map(str::to_string)
}

fn store(folder: &mut Folder, url: &str, bytes: &[u8], etag: Option<String>) -> Vec<StoreStep> {
    let parses = folder.current.as_deref().is_some_and(|c| revision(c).is_some());
    let steps = store_steps(
        folder.meta.as_ref(),
        folder.current.as_deref(),
        parses,
        url,
        bytes,
        etag,
        "2024-01-01T00:00:00.000Z".to_string(),
    );
    for step in &steps {
        match step {
            StoreStep::WriteMeta(meta) => folder.meta = Some(meta.clone()),
            StoreStep::DemoteCurrent => folder.previous = folder.current.take(),
            StoreStep::WriteCurrent => folder.current = Some(bytes.to_vec()),
        }
    }
    steps
}

fn load(folder: &Folder) -> Option<String> {
    let meta = folder.meta.as_ref()?;
    for file in [&folder.current, &folder.previous].into_iter().flatten() {
        if recorded(file, meta) {
            if let Some(r) = revision(file) {
                return Some(r);
            }
        }
    }
    None
}

#[test]
fn the_last_good_copy_survives_a_damaged_current_one() {
    let mut data = Folder::default();
    store(&mut data, "u", &bundle("one"), Some("\"a\"".into()));
    assert_eq!(load(&data).unwrap(), "one");
    store(&mut data, "u", &bundle("two"), None);
    assert_eq!(load(&data).unwrap(), "two");
    data.current = Some(b"{\"schema\":1,".to_vec());
    assert_eq!(load(&data).unwrap(), "one");
    data.previous = Some(bundle("edited by hand"));
    assert!(load(&data).is_none(), "only recorded hashes are read");
}

#[test]
fn storing_the_same_bundle_again_keeps_the_last_good_copy() {
    let mut data = Folder::default();
    store(&mut data, "u", &bundle("one"), None);
    store(&mut data, "u", &bundle("two"), None);
    store(&mut data, "u", &bundle("two"), Some("\"b\"".into()));
    data.current = None;
    assert_eq!(load(&data).unwrap(), "one");
}

#[test]
fn a_swap_cut_short_leaves_a_readable_bundle() {
    let mut data = Folder::default();
    store(&mut data, "u", &bundle("one"), None);
    // As if the host died after renaming the current file away.
    data.previous = data.current.take();
    assert_eq!(load(&data).unwrap(), "one");
}

#[test]
fn each_step_of_a_store_leaves_a_readable_bundle() {
    let mut data = Folder::default();
    store(&mut data, "u", &bundle("one"), None);
    let parses = true;
    let steps = store_steps(
        data.meta.as_ref(),
        data.current.as_deref(),
        parses,
        "u",
        &bundle("two"),
        Some("\"e\"".into()),
        "later".to_string(),
    );
    assert_eq!(steps.len(), 4);
    for cut in 0..=steps.len() {
        let mut copy = Folder { current: data.current.clone(), previous: data.previous.clone(), meta: data.meta.clone() };
        for step in &steps[..cut] {
            match step {
                StoreStep::WriteMeta(meta) => copy.meta = Some(meta.clone()),
                StoreStep::DemoteCurrent => copy.previous = copy.current.take(),
                StoreStep::WriteCurrent => copy.current = Some(bundle("two")),
            }
        }
        assert!(load(&copy).is_some(), "cut after {cut} steps");
    }
}

#[test]
fn the_etag_is_recorded_last_and_the_hashes_first() {
    let mut data = Folder::default();
    let steps = store(&mut data, "u", &bundle("one"), Some("\"a\"".into()));
    assert_eq!(steps.len(), 3);
    match (&steps[0], &steps[1], &steps[2]) {
        (StoreStep::WriteMeta(first), StoreStep::WriteCurrent, StoreStep::WriteMeta(last)) => {
            assert_eq!(first.etag, None);
            assert_eq!(first.sha256, sha256(&bundle("one")));
            assert_eq!(first.previous_sha256, None);
            assert_eq!(last.etag.as_deref(), Some("\"a\""));
            assert_eq!(last.url, "u");
        }
        other => panic!("{other:?}"),
    }
    assert_eq!(sha256(b"abc"), "ba7816bf8f01cfea414140de5dae2223b00361a396177a9cb410ff61f20015ad");
}

#[test]
fn the_etag_is_sent_only_for_an_intact_copy_of_the_same_url() {
    let mut data = Folder::default();
    store(&mut data, "u", &bundle("one"), Some("\"a\"".into()));
    let current = data.current.clone();
    assert_eq!(etag_to_send(data.meta.as_ref(), "u", current.as_deref(), true).as_deref(), Some("\"a\""));
    assert_eq!(etag_to_send(data.meta.as_ref(), "other", current.as_deref(), true), None);
    assert_eq!(etag_to_send(data.meta.as_ref(), "u", current.as_deref(), false), None);
    assert_eq!(etag_to_send(data.meta.as_ref(), "u", Some(b"junk".as_slice()), true), None);
    assert_eq!(etag_to_send(None, "u", current.as_deref(), true), None);
}

#[test]
fn a_download_ends_the_update_or_goes_on() {
    assert_eq!(fetch_result("u", Ok(Fetched::NotModified)).unwrap_err(), Outcome::Current);
    assert_eq!(fetch_result("u", Ok(Fetched::Missing)).unwrap_err(), Outcome::Failed("u: not found".into()));
    assert_eq!(fetch_result("u", Err("timeout".into())).unwrap_err(), Outcome::Failed("timeout".into()));
    let (bytes, etag) = fetch_result("u", Ok(Fetched::Body { bytes: vec![1, 2], etag: Some("e".into()) })).unwrap();
    assert_eq!(bytes, vec![1, 2]);
    assert_eq!(etag.as_deref(), Some("e"));
}
