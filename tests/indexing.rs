use varys::{
    decimal_string, index, index_all, merge, tokenize, Document, DummyIP, HttpHeader, HttpServer,
    InvertedIndex, TlsEndpoint,
};

fn expect(pairs: &[(&str, &[&str])]) -> InvertedIndex {
    let mut expected = InvertedIndex::new();
    for (term, ids) in pairs {
        expected.insert(term.to_string(), ids.iter().map(|s| s.to_string()).collect());
    }
    expected
}

fn record(domain: &str, ipv4: &str, port: u16, path: &str, body: &str) -> HttpServer {
    HttpServer {
        tls_endpoint: TlsEndpoint {
            ip: DummyIP { ipv4: ipv4.to_string() },
            port_number: port,
            port_protocol: "tcp".to_string(),
            domain_name: domain.to_string(),
            server_name_indication_used: false,
            start_tls_protocol: "".to_string(),
        },
        http_body: body.to_string(),
        http_headers: vec![HttpHeader { name: "Server".to_string(), value: "x".to_string() }],
        http_version: "HTTP/1.1".to_string(),
        http_status_code: 200,
        http_status_message: "OK".to_string(),
        http_path: path.to_string(),
    }
}

#[test]
fn simple_inverted_index() {
    let document = Document::new("doc1".into(), "Hello, world!".into());
    let index1 = index(document);

    let mut expected = InvertedIndex::new();
    expected.insert("Hello,".into(), vec!["doc1".into()]);
    expected.insert("world!".into(), vec!["doc1".into()]);

    assert_eq!(index1, expected);
}

#[test]
fn simple_merge() {
    let doc1 = Document::new("doc1".into(), "Hello,".into());
    let doc2 = Document::new("doc2".into(), "world!".into());
    let index1 = index(doc1);
    let index2 = index(doc2);

    let merged = merge(index1, index2);

    let mut expected = InvertedIndex::new();
    expected.insert("Hello,".into(), vec!["doc1".into()]);
    expected.insert("world!".into(), vec!["doc2".into()]);

    assert_eq!(merged, expected);
}

#[test]
fn multi_merge() {
    let doc1 = Document::new("doc1".into(), "Hello,".into());
    let doc2 = Document::new("doc2".into(), "world!".into());
    let doc3 = Document::new("doc3".into(), "Hello, world!".into());
    let index1 = index(doc1);
    let index2 = index(doc2);
    let index3 = index(doc3);

    let merged = merge(index1, index2);
    let merged = merge(merged, index3);

    let mut expected = InvertedIndex::new();
    expected.insert("Hello,".into(), vec!["doc1".into(), "doc3".into()]);
    expected.insert("world!".into(), vec!["doc2".into(), "doc3".into()]);

    assert_eq!(merged, expected);
}

#[test]
fn text_without_space_is_one_term() {
    let idx = index(Document::new("d".into(), "a\tb\nc,!".into()));
    assert_eq!(idx, expect(&[("a\tb\nc,!", &["d"])]));
    assert_eq!(idx.len(), 1);
}

#[test]
fn empty_text_is_the_empty_term() {
    let idx = index(Document::new("d".into(), "".into()));
    assert_eq!(idx, expect(&[("", &["d"])]));
}

#[test]
fn consecutive_spaces_give_the_empty_term() {
    let idx = index(Document::new("d".into(), " a  b ".into()));
    assert_eq!(idx, expect(&[("", &["d"]), ("a", &["d"]), ("b", &["d"])]));
}

#[test]
fn repeated_token_is_recorded_once() {
    let idx = index(Document::new("id".into(), "cat cat".into()));
    assert_eq!(idx, expect(&[("cat", &["id"])]));
    assert_eq!(idx.get(&"cat".to_string()), Some(&vec!["id".to_string()]));
}

#[test]
fn tokenize_splits_on_space_only() {
    assert_eq!(tokenize("Hello, world!"), vec!["Hello,", "world!"]);
    assert_eq!(tokenize(""), vec![""]);
    assert_eq!(tokenize("a  b"), vec!["a", "", "b"]);
    assert_eq!(tokenize("é ü\tx"), vec!["é", "ü\tx"]);
}

#[test]
fn merge_with_empty_is_identity() {
    let i = || index(Document::new("doc1".into(), "Hello, world!".into()));
    assert_eq!(merge(i(), InvertedIndex::new()), i());
    assert_eq!(merge(InvertedIndex::new(), i()), i());
    assert_eq!(merge(InvertedIndex::new(), InvertedIndex::new()), InvertedIndex::new());
}

#[test]
fn merge_is_associative() {
    let a = || index(Document::new("doc1".into(), "x y".into()));
    let b = || index(Document::new("doc2".into(), "y z".into()));
    let c = || index(Document::new("doc3".into(), "x z y".into()));
    let left = merge(merge(a(), b()), c());
    let right = merge(a(), merge(b(), c()));
    assert_eq!(left, right);
    assert_eq!(
        left,
        expect(&[
            ("x", &["doc1", "doc3"]),
            ("y", &["doc1", "doc2", "doc3"]),
            ("z", &["doc2", "doc3"]),
        ])
    );
}

#[test]
fn merge_keeps_duplicate_postings() {
    let a = index(Document::new("doc1".into(), "x".into()));
    let b = index(Document::new("doc1".into(), "x".into()));
    assert_eq!(merge(a, b), expect(&[("x", &["doc1", "doc1"])]));
}

#[test]
fn index_all_folds_in_order() {
    let docs = vec![
        Document::new("doc1".into(), "Hello,".into()),
        Document::new("doc2".into(), "world!".into()),
        Document::new("doc3".into(), "Hello, world!".into()),
    ];
    let idx = index_all(docs);
    assert_eq!(idx, expect(&[("Hello,", &["doc1", "doc3"]), ("world!", &["doc2", "doc3"])]));
    assert_eq!(index_all(vec![]), InvertedIndex::new());
}

#[test]
fn equality_ignores_term_order() {
    let a = expect(&[("a", &["1"]), ("b", &["2"])]);
    let b = expect(&[("b", &["2"]), ("a", &["1"])]);
    assert_eq!(a, b);
    assert_ne!(a, expect(&[("a", &["1"]), ("b", &["3"])]));
    assert_ne!(a, expect(&[("a", &["1"])]));
    assert_ne!(a, expect(&[("a", &["1"]), ("c", &["2"])]));
}

#[test]
fn insert_replaces_and_append_extends() {
    let mut idx = InvertedIndex::new();
    idx.insert("t".into(), vec!["1".into()]);
    idx.insert("t".into(), vec!["2".into()]);
    assert_eq!(idx.get(&"t".to_string()), Some(&vec!["2".to_string()]));
    idx.append("t".into(), vec!["3".into()]);
    idx.append("u".into(), vec!["4".into()]);
    assert_eq!(idx, expect(&[("t", &["2", "3"]), ("u", &["4"])]));
    assert_eq!(idx.get(&"v".to_string()), None);
    let mut entries = idx.into_entries();
    entries.sort();
    assert_eq!(
        entries,
        vec![
            ("t".to_string(), vec!["2".to_string(), "3".to_string()]),
            ("u".to_string(), vec!["4".to_string()]),
        ]
    );
}

#[test]
fn decimal_string_writes_digits() {
    assert_eq!(decimal_string(0), "0");
    assert_eq!(decimal_string(7), "7");
    assert_eq!(decimal_string(443), "443");
    assert_eq!(decimal_string(8080), "8080");
    assert_eq!(decimal_string(65535), "65535");
}

#[test]
fn http_record_url_uses_domain_and_https_on_443() {
    let doc = Document::from_http(record("example.com", "10.0.0.1", 443, "index.html", "a b"));
    assert_eq!(doc.id(), "https://example.com:443/index.html");
    assert_eq!(doc.text(), "a b");
}

#[test]
fn http_record_url_falls_back_to_ip_and_http() {
    let doc = Document::from_http(record("", "10.0.0.1", 8080, "", "body"));
    assert_eq!(doc.id(), "http://10.0.0.1:8080/");
    let idx = index(doc);
    assert_eq!(idx, expect(&[("body", &["http://10.0.0.1:8080/"])]));
}
