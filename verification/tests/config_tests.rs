use nia::config::{ConfigError, FeedConfig};

fn parse_str(input: &str) -> Result<FeedConfig, ConfigError> {
    FeedConfig::parse_config(input)
}

#[test]
fn parses_single_section() {
    let cfg = "
# News
Rust Blog | https://blog.rust-lang.org
";

    let config = parse_str(cfg).unwrap();

    assert_eq!(config.sections.len(), 1);
    let section = &config.sections[0];
    assert_eq!(section.title, "News");
    assert_eq!(section.feeds.len(), 1);
}

#[test]
fn parses_multiple_sections() {
    let cfg = "
# Tech
HN | https://news.ycombinator.com

# Comics
xkcd | https://xkcd.com
";

    let config = parse_str(cfg).unwrap();

    assert_eq!(config.sections.len(), 2);
    assert_eq!(config.sections[0].feeds.len(), 1);
    assert_eq!(config.sections[1].feeds.len(), 1);
}

#[test]
fn ignores_lines_before_first_section() {
    let cfg = "
Feed | https://example.com

# Proper
Feed | https://example.com
";

    let config = parse_str(cfg).unwrap();

    assert_eq!(config.sections.len(), 1);
    assert_eq!(config.sections[0].feeds.len(), 1);
}

#[test]
fn errors_on_invalid_feed() {
    let cfg = "
# Bad
not a feed
";

    let err = parse_str(cfg).unwrap_err();
    assert_eq!(err, ConfigError::BadFeedLine);
}

#[test]
fn empty_input_produces_no_sections() {
    let config = parse_str("").unwrap();
    assert!(config.sections.is_empty());
}

#[test]
fn errors_on_invalid_url() {
    let err = parse_str("# S\na feed | not a url\n").unwrap_err();
    assert_eq!(err, ConfigError::BadUrl);
}

#[test]
fn feed_urls_are_normalized() {
    let config = parse_str("# S\nBlog | https://blog.rust-lang.org\n").unwrap();
    // the URL parser normalizes the host form with a trailing slash
    assert_eq!(config.sections[0].feeds[0].url, "https://blog.rust-lang.org/");
    assert_eq!(config.sections[0].feeds[0].title, "Blog");
    assert_eq!(config.sections[0].feeds[0].posts.len(), 0);
}
