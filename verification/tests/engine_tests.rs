use alloy_mcp::engine::{
    AlloyMcpServer, GetResourceRequest, LookupTypeRequest, SearchResourcesRequest,
};
use alloy_mcp::resources::{all, resource, StaticResource};

fn text(r: Vec<u8>) -> String {
    String::from_utf8(r).unwrap()
}

fn doc(uri: &str, name: &str, description: &str, content: &str) -> StaticResource {
    resource(uri, name, description, content.as_bytes().to_vec())
}

fn catalog_server() -> AlloyMcpServer {
    let mut bodies: Vec<Vec<u8>> = Vec::new();
    for i in 0..13usize {
        bodies.push(format!("Body of document number {}\n", i).into_bytes());
    }
    // Give the first document a heading that mentions a type name.
    bodies[0] = b"Intro text.\n\n## TxEip1559\nThe EIP-1559 transaction type.\n".to_vec();
    AlloyMcpServer::new(all(bodies))
}

#[test]
fn default_max_results_is_five() {
    assert_eq!(SearchResourcesRequest::default_max_results(), 5);
}

#[test]
fn catalog_has_thirteen_documents_with_markdown_mime() {
    let server = catalog_server();
    assert_eq!(server.resources.len(), 13);
    for d in &server.resources {
        assert_eq!(d.mime_type, b"text/markdown".to_vec());
    }
    assert_eq!(
        server.resources[0].uri,
        b"alloy://consensus/transactions".to_vec()
    );
    // URIs are pairwise distinct.
    for i in 0..13 {
        for j in 0..i {
            assert!(server.resources[i].uri != server.resources[j].uri);
        }
    }
}

#[test]
fn lookup_heading_match_ranks_first_with_score_100() {
    let server = catalog_server();
    let out = text(server.lookup_type(&LookupTypeRequest {
        name: "TxEip1559".to_string(),
    }));
    assert!(out.starts_with("# Results for 'TxEip1559'\n\n"));
    assert!(out.contains("alloy://consensus/transactions"));
    // The heading match is the first rendered entry and shows score 100.
    let first_entry = out.split("---\n").nth(1).unwrap();
    assert!(first_entry.contains("(relevance: 100)"));
    assert!(first_entry.contains("**TxEip1559**"));
}

#[test]
fn lookup_no_match_lists_every_uri() {
    let server = catalog_server();
    let out = text(server.lookup_type(&LookupTypeRequest {
        name: "zzzz_no_such_type".to_string(),
    }));
    assert!(out.starts_with("No documentation found for 'zzzz_no_such_type'."));
    for d in &server.resources {
        let uri = String::from_utf8(d.uri.clone()).unwrap();
        assert!(out.contains(&uri));
    }
}

#[test]
fn lookup_keeps_at_most_three_results() {
    let server = AlloyMcpServer::new(vec![
        doc("u://1", "One", "d", "## widget\nwidget text"),
        doc("u://2", "Two", "d", "## widget\nwidget text"),
        doc("u://3", "Three", "d", "## widget\nwidget text"),
        doc("u://4", "Four", "d", "## widget\nwidget text"),
    ]);
    let out = text(server.lookup_type(&LookupTypeRequest {
        name: "widget".to_string(),
    }));
    assert_eq!(out.matches("---\n**").count(), 3);
}

#[test]
fn equal_scores_keep_corpus_order() {
    // Both sections contain the query once in the body; the scores tie and
    // the corpus order decides.
    let server = AlloyMcpServer::new(vec![
        doc("u://first", "First", "d", "mentions dup once"),
        doc("u://second", "Second", "d", "also dup here"),
    ]);
    let out = text(server.lookup_type(&LookupTypeRequest {
        name: "dup".to_string(),
    }));
    let first = out.find("u://first").unwrap();
    let second = out.find("u://second").unwrap();
    assert!(first < second);
}

#[test]
fn lookup_prefers_heading_over_backtick_over_frequency() {
    let server = AlloyMcpServer::new(vec![
        doc("u://freq", "Freq", "d", "gadget gadget gadget gadget"),
        doc("u://tick", "Tick", "d", "call `gadget` here"),
        doc("u://head", "Head", "d", "## gadget\nsome text"),
    ]);
    let out = text(server.lookup_type(&LookupTypeRequest {
        name: "gadget".to_string(),
    }));
    let head = out.find("u://head").unwrap();
    let tick = out.find("u://tick").unwrap();
    let freq = out.find("u://freq").unwrap();
    assert!(head < tick && tick < freq);
    assert!(out.contains("(relevance: 100)"));
    assert!(out.contains("(relevance: 80)"));
    assert!(out.contains("(relevance: 54)"));
}

#[test]
fn search_gas_nonce_with_max_one_returns_one_block() {
    let server = AlloyMcpServer::new(vec![
        doc(
            "u://fillers",
            "Fillers",
            "d",
            "## GasFiller\ngas is filled here, nonce too; gas nonce appear together",
        ),
        doc("u://other", "Other", "d", "## Something\nmentions gas only"),
    ]);
    let out = text(server.search_resources(&SearchResourcesRequest {
        query: "gas nonce".to_string(),
        max_results: Some(1),
    }));
    assert!(out.starts_with("# Search results for 'gas nonce'\n\n"));
    assert_eq!(out.matches("---\n**").count(), 1);
    // The section where both terms (and the whole query) occur wins.
    assert!(out.contains("u://fillers"));
    assert!(!out.contains("u://other"));
}

#[test]
fn search_is_more_permissive_than_lookup() {
    // No section contains the whole query string, so a lookup falls back,
    // while the search still surfaces the section on one term's bonus.
    let server = AlloyMcpServer::new(vec![doc(
        "u://a",
        "A",
        "d",
        "## Topic\nthis mentions alpha only",
    )]);
    let lookup = text(server.lookup_type(&LookupTypeRequest {
        name: "alpha zzz".to_string(),
    }));
    assert!(lookup.starts_with("No documentation found for 'alpha zzz'."));
    let search = text(server.search_resources(&SearchResourcesRequest {
        query: "alpha zzz".to_string(),
        max_results: None,
    }));
    assert!(search.starts_with("# Search results for 'alpha zzz'\n\n"));
    assert!(search.contains("u://a"));
}

#[test]
fn search_no_match_lists_every_uri_with_description() {
    let server = catalog_server();
    let out = text(server.search_resources(&SearchResourcesRequest {
        query: "qqqqqq".to_string(),
        max_results: None,
    }));
    assert!(out.starts_with("No results for 'qqqqqq'."));
    for d in &server.resources {
        let uri = String::from_utf8(d.uri.clone()).unwrap();
        let description = String::from_utf8(d.description.clone()).unwrap();
        assert!(out.contains(&uri));
        assert!(out.contains(&description));
    }
}

#[test]
fn search_with_zero_max_results_keeps_nothing() {
    let server = catalog_server();
    let out = text(server.search_resources(&SearchResourcesRequest {
        query: "TxEip1559".to_string(),
        max_results: Some(0),
    }));
    assert!(out.starts_with("No results for 'TxEip1559'."));
}

#[test]
fn search_previews_long_bodies_at_forty_lines() {
    let mut body = String::from("## Long\n");
    for i in 0..60 {
        body.push_str(&format!("line number {}\n", i));
    }
    let server = AlloyMcpServer::new(vec![doc("u://long", "Long", "d", &body)]);
    let out = text(server.search_resources(&SearchResourcesRequest {
        query: "Long".to_string(),
        max_results: None,
    }));
    // 61 body lines; the first 40 are shown and 21 remain.
    assert!(out.contains("... (21 more lines, fetch full resource: u://long)"));
    assert!(out.contains("line number 38"));
    assert!(!out.contains("line number 39\n"));
}

#[test]
fn search_shows_full_short_bodies_without_trailer() {
    let server = AlloyMcpServer::new(vec![doc("u://short", "Short", "d", "## S\nbrief body")]);
    let out = text(server.search_resources(&SearchResourcesRequest {
        query: "brief".to_string(),
        max_results: None,
    }));
    assert!(out.contains("brief body"));
    assert!(!out.contains("more lines"));
}

#[test]
fn fetch_list_returns_sorted_catalog() {
    let server = catalog_server();
    let out = text(server.get_resource(&GetResourceRequest {
        uri: "list".to_string(),
    }));
    assert!(out.starts_with("# Available Resources\n\n"));
    assert_eq!(out.matches("- **").count(), 13);
    // Entries are sorted by their full rendered text.
    let body = out.strip_prefix("# Available Resources\n\n").unwrap();
    let entries: Vec<&str> = body.split("\n\n").collect();
    assert_eq!(entries.len(), 13);
    let mut sorted = entries.clone();
    sorted.sort();
    assert_eq!(entries, sorted);
}

#[test]
fn fetch_known_uri_returns_raw_content() {
    let server = catalog_server();
    let out = server.get_resource(&GetResourceRequest {
        uri: "alloy://consensus/transactions".to_string(),
    });
    assert_eq!(out, server.resources[0].content);
}

#[test]
fn fetch_unknown_uri_reports_not_found_with_all_uris() {
    let server = catalog_server();
    let out = text(server.get_resource(&GetResourceRequest {
        uri: "alloy://nonexistent".to_string(),
    }));
    assert!(out.starts_with("Resource not found: 'alloy://nonexistent'"));
    for d in &server.resources {
        let uri = String::from_utf8(d.uri.clone()).unwrap();
        assert!(out.contains(&uri));
    }
}

#[test]
fn find_resource_distinguishes_present_from_absent() {
    let server = catalog_server();
    assert!(server.find_resource(b"alloy://provider/setup").is_some());
    assert!(server.find_resource(b"alloy://missing").is_none());
}

#[test]
fn empty_query_matches_every_section_in_lookup() {
    let server = AlloyMcpServer::new(vec![doc("u://a", "A", "d", "## H\nbody")]);
    let out = text(server.lookup_type(&LookupTypeRequest {
        name: "".to_string(),
    }));
    // An empty query is contained in every heading, so everything scores 100.
    assert!(out.starts_with("# Results for ''\n\n"));
    assert!(out.contains("(relevance: 100)"));
}
