use wastebin::clock::now_seconds;
use wastebin::error::Error;
use wastebin::layer::Layer;

#[test]
fn rendering_transforms_the_content() {
    let mut layer = Layer::new(4).expect("capacity is positive");
    let content = "fn main() { println!(\"hi\"); }";
    let id = layer.insert_entry(content.to_string(), Some("rs".to_string()), None, false, 10);
    let html = layer.fetch_rendered(id, 0, 20).expect("live entry renders");
    assert!(!html.is_empty());
    // The highlighter wraps the content in markup; handing the input back
    // unchanged would fail here.
    assert_ne!(html, content);
    assert!(html.contains('<'));
}

#[test]
fn rendering_without_language_hint_uses_plain_text() {
    let mut layer = Layer::new(4).expect("capacity is positive");
    let content = "just some words";
    let id = layer.insert_entry(content.to_string(), None, None, false, 10);
    let html = layer.fetch_rendered(id, 0, 20).expect("live entry renders");
    assert!(!html.is_empty());
    assert_ne!(html, content);
    assert!(html.contains("just some words"));
}

#[test]
fn unknown_language_hint_still_renders() {
    let mut layer = Layer::new(4).expect("capacity is positive");
    let id = layer.insert_entry(
        "body".to_string(),
        Some("no-such-language".to_string()),
        None,
        false,
        10,
    );
    assert!(layer.fetch_rendered(id, 0, 20).is_ok());
}

#[test]
fn repeated_fetch_returns_identical_rendering() {
    let mut layer = Layer::new(4).expect("capacity is positive");
    let id = layer.insert_entry("same again".to_string(), None, None, false, 10);
    let first = layer.fetch_rendered(id, 0, 20).expect("renders");
    // The second fetch is served from the cache and must be the same value.
    assert!(layer.is_cached(id, 0));
    let second = layer.fetch_rendered(id, 0, 20).expect("renders");
    assert_eq!(first, second);
}

#[test]
fn not_found_beats_rendering() {
    let mut layer = Layer::new(4).expect("capacity is positive");
    match layer.fetch_rendered(999, 0, 20) {
        Err(Error::NotFound) => {}
        _ => panic!("nothing to render for an absent id"),
    }
}

#[test]
fn clock_reads_a_plausible_time() {
    let a = now_seconds();
    let b = now_seconds();
    // Past 2001 by any sane wall clock, and never running backwards between
    // two adjacent reads by more than the clamp allows.
    assert!(a > 1_000_000_000);
    assert!(b >= a || a - b < 5);
}
