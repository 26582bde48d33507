use news_ticker::filter::{classify_reply, classify_upper_reply, tags_url, ContentClassification, ContentFilter};

#[test]
fn test_classification_display() {
    assert_eq!(ContentClassification::Safe.label(), "SAFE");
    assert_eq!(ContentClassification::Offensive.label(), "OFFENSIVE");
}

#[test]
fn test_filter_creation() {
    let filter = ContentFilter::new("model-id".to_string()).unwrap();
    assert_eq!(filter.endpoint(), "http://localhost:11434/");
    assert_eq!(filter.model(), "model-id".to_string());
}

#[test]
fn test_custom_filter() {
    // The Ollama address is fixed, as the README documents it: a filter made
    // for a custom model still talks to http://localhost:11434, and no other
    // host can be configured.
    let filter = ContentFilter::new("custom-model".to_string()).unwrap();
    assert_eq!(filter.endpoint(), "http://localhost:11434/");
    assert_eq!(filter.model(), "custom-model");
    let other = ContentFilter::new("model-a".to_string()).unwrap();
    assert_eq!(other.endpoint(), filter.endpoint());
}

#[test]
fn test_prompt_building() {
    let filter = ContentFilter::new("something".to_string()).unwrap();
    let text = "Test news headline";
    let prompt = filter.build_classification_prompt(text);

    assert!(prompt.contains("Test news headline"));
    assert!(prompt.contains("OFFENSIVE or SAFE"));
}

#[test]
fn prompt_ends_with_the_text() {
    let filter = ContentFilter::new("m".to_string()).unwrap();
    let prompt = filter.build_classification_prompt("Headline");
    assert!(prompt.starts_with("You are a content filter for a news ticker application. The text may be"));
    assert!(prompt.ends_with("with no other text or explanations.\n\nText: Headline"));
}

#[test]
fn replies_are_read_case_insensitively() {
    assert_eq!(classify_reply("offensive"), ContentClassification::Offensive);
    assert_eq!(classify_reply("The text is Offensive."), ContentClassification::Offensive);
    assert_eq!(classify_reply("SAFE"), ContentClassification::Safe);
    assert_eq!(classify_reply(""), ContentClassification::Safe);
    assert_eq!(classify_reply("offens"), ContentClassification::Safe);
}

#[test]
fn upper_replies() {
    assert_eq!(classify_upper_reply("XOFFENSIVEX"), ContentClassification::Offensive);
    assert_eq!(classify_upper_reply("offensive"), ContentClassification::Safe);
}

#[test]
fn health_url_of_the_filter() {
    let filter = ContentFilter::new("m".to_string()).unwrap();
    assert_eq!(filter.health_url(), "http://localhost:11434/api/tags");
}

#[test]
fn tags_url_defaults() {
    assert_eq!(tags_url("https", Some("host"), Some(8080)), "https://host:8080/api/tags");
    assert_eq!(tags_url("http", None, None), "http://localhost:11434/api/tags");
    assert_eq!(tags_url("http", Some("h"), Some(0)), "http://h:0/api/tags");
    assert_eq!(tags_url("http", Some("h"), Some(65535)), "http://h:65535/api/tags");
}
