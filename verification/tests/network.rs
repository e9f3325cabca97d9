use browser_engine::network::{
    combine_stylesheets, extract_css_links, resolve_url, stylesheet_url, stylesheet_urls, UrlError,
};

#[test]
fn links_are_found_line_by_line() {
    let html = "<html>\n<head>\n<link rel=\"stylesheet\" href=\"a.css\">\n\
                <link href='b/c.css' rel='stylesheet'>\r\n\
                <link rel=\"icon\" href=\"x.css\">\n</head>";
    assert_eq!(extract_css_links(html), vec!["a.css", "b/c.css"]);
}

#[test]
fn link_needs_rel_href_and_css() {
    assert!(extract_css_links("<link rel=\"stylesheet\" href=\"a.txt\">").is_empty());
    assert!(extract_css_links("<link rel=\"stylesheet\">").is_empty());
    assert!(extract_css_links("<link rel=stylesheet href=\"a.css\">").is_empty());
    assert!(extract_css_links("<link rel=\"stylesheet\" href=\"a.css>").is_empty());
    assert!(extract_css_links("<link rel=\"stylesheet\"\nhref=\"a.css\">").is_empty());
    assert!(extract_css_links("").is_empty());
    assert_eq!(extract_css_links("<link rel=\"stylesheet\" href=\".css\">"), vec![".css"]);
}

#[test]
fn double_quoted_href_is_preferred() {
    let html = "<link rel='stylesheet' href='a.css' data-href=\"b.css\">";
    assert_eq!(extract_css_links(html), vec!["b.css"]);
    let html = "<a href=\"x.css\"></a><link rel=\"stylesheet\" href=\"y.css\">";
    assert_eq!(extract_css_links(html), vec!["x.css"]);
}

#[test]
fn one_link_per_line() {
    let html = "<link rel=\"stylesheet\" href=\"a.css\"><link rel=\"stylesheet\" href=\"b.css\">";
    assert_eq!(extract_css_links(html), vec!["a.css"]);
}

#[test]
fn relative_url_is_resolved_against_the_base() {
    assert_eq!(
        resolve_url("https://example.net/a/b.html", "c.png"),
        Ok("https://example.net/a/c.png".to_string())
    );
    assert_eq!(
        resolve_url("https://example.net/a/b/", "../style.css"),
        Ok("https://example.net/a/style.css".to_string())
    );
    assert_eq!(
        resolve_url("https://alice.com/a", "//eve.com/b"),
        Ok("https://eve.com/b".to_string())
    );
    assert_eq!(
        resolve_url("https://alice.com/a", "http://eve.com/b"),
        Ok("http://eve.com/b".to_string())
    );
}

#[test]
fn unresolvable_url_is_an_error() {
    assert_eq!(resolve_url("not a url", "a.css"), Err(UrlError::RelativeUrlWithoutBase));
    assert_eq!(resolve_url("https://example.net:99999/", "a.css"), Err(UrlError::InvalidPort));
    assert_eq!(resolve_url("mailto:a@example.net", "a.css"), Err(UrlError::CannotBeABase));
    assert_eq!(resolve_url("https://example.net/", "https://"), Err(UrlError::EmptyHost));
}

#[test]
fn absolute_link_is_kept_and_relative_link_is_resolved() {
    assert_eq!(
        stylesheet_url("https://example.net/p/", "http://cdn.example/a.css"),
        Some("http://cdn.example/a.css".to_string())
    );
    assert_eq!(
        stylesheet_url("not a url", "https://cdn.example/a.css"),
        Some("https://cdn.example/a.css".to_string())
    );
    assert_eq!(
        stylesheet_url("https://example.net/p/q.html", "a.css"),
        Some("https://example.net/p/a.css".to_string())
    );
    assert_eq!(stylesheet_url("not a url", "a.css"), None);
}

#[test]
fn stylesheet_urls_of_a_page() {
    let html = "<link rel=\"stylesheet\" href=\"/main.css\">\n\
                <link rel=\"stylesheet\" href=\"https://cdn.example/x.css\">\n\
                <link rel=\"stylesheet\" href=\"theme/dark.css\">";
    assert_eq!(
        stylesheet_urls("https://example.net/docs/index.html", html),
        vec![
            "https://example.net/main.css",
            "https://cdn.example/x.css",
            "https://example.net/docs/theme/dark.css",
        ]
    );
    assert_eq!(stylesheet_urls("nonsense", html), vec!["https://cdn.example/x.css"]);
}

#[test]
fn stylesheets_are_joined_with_line_feeds() {
    let sheets = vec!["a { }".to_string(), "b { }".to_string()];
    assert_eq!(combine_stylesheets(&sheets), "a { }\nb { }\n");
    assert_eq!(combine_stylesheets(&vec![String::new()]), "\n");
}

#[test]
fn page_without_stylesheets_gets_the_default() {
    assert_eq!(
        combine_stylesheets(&Vec::new()),
        "body { background: #ffffff; margin: 20px; }"
    );
}

fn links_by_lines(html: &str) -> Vec<String> {
    let mut links = Vec::new();
    for line in html.lines() {
        if line.contains("rel=\"stylesheet\"") || line.contains("rel='stylesheet'") {
            if let Some(start) = line.find("href=\"").or_else(|| line.find("href='")) {
                let quote = if line[start..].starts_with("href=\"") { '"' } else { '\'' };
                let from = start + 6;
                if let Some(len) = line[from..].find(quote) {
                    let url = &line[from..from + len];
                    if url.ends_with(".css") {
                        links.push(url.to_string());
                    }
                }
            }
        }
    }
    links
}

#[test]
fn links_agree_with_a_search_by_lines() {
    let samples = [
        "",
        "\n",
        "\r\n",
        "<link rel=\"stylesheet\" href=\"a.css\">",
        "<link rel=\"stylesheet\" href=\"a.css\">\r\n<link rel='stylesheet' href='b.css'>\r",
        "<link rel=\"stylesheet\" href=\"a.css\r\n\">",
        "<link rel=\"stylesheet\" href='a.css\r",
        "<link rel='stylesheet' href=\"é/日本.css\"> <a href='x'>\n\n<link rel='stylesheet' href='q.css",
        "href=\"first.css\" rel=\"stylesheet\" href='second.css'",
        "rel='stylesheet' href='it\"s.css'",
        "rel='stylesheet' href=\"it's.css\" href='x.css'",
        "rel=\"stylesheet\"href=\"\"",
        "rel=\"stylesheet\" href=\"css\"",
        "rel=\"stylesheet\" href=\"a.CSS\"",
        "x\nrel=\"stylesheet\" href=\"1.css\"\nrel=\"stylesheet\" href=\"2.css\"\n",
        "rel=\"stylesheet\" href=\"a.css\"\rrel=\"stylesheet\" href=\"b.css\"",
    ];
    for sample in samples {
        assert_eq!(extract_css_links(sample), links_by_lines(sample), "{:?}", sample);
    }
}

#[test]
fn malformed_hosts_are_told_apart() {
    let got: Vec<Result<String, UrlError>> = [
        "https://[::1::2]/",
        "https://1.2.3.4.5/",
        "sc://a b/",
        "https://xn--/",
    ]
    .iter()
    .map(|base| resolve_url(base, "a.css"))
    .collect();
    assert_eq!(
        got,
        vec![
            Err(UrlError::InvalidIpv6Address),
            Err(UrlError::InvalidIpv4Address),
            Err(UrlError::InvalidDomainCharacter),
            Err(UrlError::IdnaError),
        ]
    );
}
