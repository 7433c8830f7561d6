use scicomp::listing::{image_names_from_captures, image_names_from_listing};

#[test]
fn png_links_are_sorted_and_deduplicated() {
    let html = r#"<a href="hd2.png">x</a> <a href="../">up</a> <a href="hd1.png">y</a>
<a href="hd2.png">again</a> <a href="?C=N;O=D.png">sort</a> <a href="notes.txt">n</a>"#;
    let names = image_names_from_listing(html).unwrap();
    assert_eq!(names, vec!["hd1.png".to_string(), "hd2.png".to_string()]);
}

#[test]
fn empty_listing() {
    assert_eq!(image_names_from_listing("<html></html>"), Some(Vec::new()));
}

#[test]
fn links_going_up_are_dropped() {
    let names = image_names_from_listing(r#"<a href="../x.png"> <a href="b.png"> <a href="a.png">"#).unwrap();
    assert_eq!(names, vec!["a.png".to_string(), "b.png".to_string()]);
}

#[test]
fn captured_links_are_filtered_and_sorted() {
    let caps: Vec<String> = ["b.png", "../up.png", "?C=N;O=D", "a.png", "b.png", "notes.txt"]
        .iter()
        .map(|s| s.to_string())
        .collect();
    assert_eq!(image_names_from_captures(&caps), vec!["a.png".to_string(), "b.png".to_string()]);
    assert_eq!(image_names_from_captures(&vec![]), Vec::<String>::new());
}
