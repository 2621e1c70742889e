use gasp::tag_finder::{TagEvent, TagFinder};

#[test]
fn test_split_tag_handling() {
    // Tag name split across chunks: "<Report" and "Sub>"
    let mut finder = TagFinder::new();
    let mut events = Vec::new();

    events.extend(finder.push("<Report"));
    assert_eq!(events.len(), 0);

    events.extend(finder.push("Sub>{"));
    println!("Events after second chunk: {:?}", events);
    assert!(!events.is_empty(), "No events emitted after opening tag");

    let mut found_tag = false;
    for event in &events {
        if let TagEvent::Open(name) = event {
            if name == "ReportSub" {
                found_tag = true;
                break;
            }
        }
    }
    assert!(found_tag, "'ReportSub' found");

    events.clear();
    events.extend(finder.push(" more content</ReportSub>"));
    println!("Events after third chunk: {:?}", events);

    let mut has_close = false;
    let mut has_bytes = false;
    for event in &events {
        match event {
            TagEvent::Close(name) if name == "ReportSub" => has_close = true,
            TagEvent::Bytes(_) => has_bytes = true,
            _ => {}
        }
    }
    assert!(has_close, "No close event for ReportSub tag");
    assert!(has_bytes, "No bytes event for content");
}

#[test]
fn test_extreme_tag_splitting() {
    // opening bracket, name and closing bracket in separate chunks
    let mut finder = TagFinder::new();
    let mut events = Vec::new();

    events.extend(finder.push("<"));
    println!("Events after first chunk: {:?}", events);
    events.extend(finder.push("ReportSub"));
    println!("Events after second chunk: {:?}", events);
    events.extend(finder.push(">content"));
    println!("Events after third chunk: {:?}", events);

    let mut has_open_report = false;
    for event in &events {
        if let TagEvent::Open(name) = event {
            if name == "ReportSub" {
                has_open_report = true;
                break;
            }
        }
    }
    assert!(has_open_report, "No open event for ReportSub tag found");

    events.clear();
    events.extend(finder.push("</Report"));
    events.extend(finder.push("Sub>"));
    println!("Events after closing tag: {:?}", events);

    let mut has_close = false;
    for event in &events {
        if let TagEvent::Close(name) = event {
            if name == "ReportSub" {
                has_close = true;
                break;
            }
        }
    }
    assert!(has_close, "No close event for ReportSub tag found");
}

#[test]
fn tag_finder_payload_and_attributes() {
    let mut finder = TagFinder::new();
    let evs = finder.push("chatter <Msg id=\"1\">hello <b> world</Msg> tail");
    let names: Vec<String> = evs
        .iter()
        .map(|e| match e {
            TagEvent::Open(n) => format!("open:{}", n),
            TagEvent::Bytes(b) => format!("bytes:{}", b),
            TagEvent::Close(n) => format!("close:{}", n),
        })
        .collect();
    assert_eq!(
        names,
        vec![
            "open:Msg".to_string(),
            "bytes:hello ".to_string(),
            "bytes: world".to_string(),
            "close:Msg".to_string()
        ]
    );
}

fn flatten(events: &[TagEvent]) -> Vec<String> {
    let mut out = Vec::new();
    for e in events {
        match e {
            TagEvent::Open(n) => out.push(format!("open {}", n)),
            TagEvent::Close(n) => out.push(format!("close {}", n)),
            TagEvent::Bytes(b) => {
                for c in b.chars() {
                    out.push(format!("byte {}", c));
                }
            }
        }
    }
    out
}

#[test]
fn chunking_does_not_change_events() {
    let text = "noise <Out a=\"1\">{\"k\": [1, 2]}</Out> tail <x>more</x>";
    let mut whole = TagFinder::new();
    let all = whole.push(text);
    for cut in 0..text.len() {
        if !text.is_char_boundary(cut) {
            continue;
        }
        let mut f = TagFinder::new();
        let mut evs = f.push(&text[..cut]);
        evs.extend(f.push(&text[cut..]));
        assert_eq!(flatten(&evs), flatten(&all), "cut at {}", cut);
    }
    assert_eq!(flatten(&all)[0], "open Out");
}
