use data_collect::xml::{parse_xml, XmlElement, XmlNode};

const DATA: &str = r#"<articles xmlns="article">
    <article>
        <title>10 Terrible Bugs You Would NEVER Believe Happened</title>
        <body>
            Rust fixed them all. &lt;3
        </body>
    </article>
    <article>
        <title>BREAKING NEWS: Physical Bug Jumps Out Of Programmer's Screen</title>
        <body>
            Just kidding!
        </body>
    </article>
</articles>"#;

const ARTICLE_NS: &str = "article";

#[derive(Debug)]
pub struct Article {
    title: String,
    body: String,
}

#[test]
fn minidom_test() {
    let root: XmlElement = parse_xml(DATA).ok().unwrap();

    let mut articles: Vec<Article> = Vec::new();

    for child in root.children() {
        if child.is("article", ARTICLE_NS) {
            let title = child.get_child("title", ARTICLE_NS).unwrap().text();
            let body = child.get_child("body", ARTICLE_NS).unwrap().text();
            articles.push(Article {
                title,
                body: body.trim().to_owned(),
            });
        }
    }

    println!("{:?}", articles);

    assert_eq!(articles.len(), 2);
    assert_eq!(articles[0].title, "10 Terrible Bugs You Would NEVER Believe Happened");
    assert_eq!(articles[0].body, "Rust fixed them all. <3");
    assert_eq!(
        articles[1].title,
        "BREAKING NEWS: Physical Bug Jumps Out Of Programmer's Screen"
    );
    assert_eq!(articles[1].body, "Just kidding!");
}

#[test]
fn parsed_tree_keeps_names_namespaces_and_nodes() {
    let root = parse_xml(r#"<root xmlns="ns1">a<c1 />b<p:c2 xmlns:p="ns2"/>c</root>"#)
        .ok()
        .unwrap();
    assert_eq!(root.name(), "root");
    assert_eq!(root.ns(), "ns1");
    assert_eq!(root.nodes.len(), 5);
    match &root.nodes[0] {
        XmlNode::Text(t) => assert_eq!(t, "a"),
        XmlNode::Element(_) => panic!("expected text"),
    }
    match &root.nodes[3] {
        XmlNode::Element(e) => {
            assert_eq!(e.name(), "c2");
            assert_eq!(e.ns(), "ns2");
        }
        XmlNode::Text(_) => panic!("expected an element"),
    }
    assert_eq!(root.text(), "abc");
    let names: Vec<&str> = root.children().iter().map(|c| c.name()).collect();
    assert_eq!(names, vec!["c1", "c2"]);
}

#[test]
fn get_child_takes_the_first_match_in_the_namespace() {
    let root = parse_xml(r#"<node xmlns="ns"><a>1</a><a xmlns="other_ns">2</a><b/><a>3</a></node>"#)
        .ok()
        .unwrap();
    assert_eq!(root.get_child("a", "ns").unwrap().text(), "1");
    assert_eq!(root.get_child("a", "other_ns").unwrap().text(), "2");
    assert!(root.get_child("b", "ns").unwrap().is("b", "ns"));
    assert!(root.get_child("c", "ns").is_none());
    assert!(root.get_child("b", "other_ns").is_none());
    assert!(root.get_child("a", "inexistent_ns").is_none());
}

#[test]
fn text_joins_direct_text_only() {
    let root = parse_xml(r#"<node xmlns="ns1">hello,<split>inner</split> world!</node>"#)
        .ok()
        .unwrap();
    assert_eq!(root.text(), "hello, world!");
    assert_eq!(root.get_child("split", "ns1").unwrap().text(), "inner");
}

#[test]
fn tree_agrees_with_minidom() {
    let text = r#"<r xmlns="n"><x>1</x>t<y><z xmlns="m">2</z></y></r>"#;
    let ours = parse_xml(text).ok().unwrap();
    let theirs: minidom::Element = text.parse().unwrap();
    assert_eq!(ours.name(), theirs.name());
    assert_eq!(ours.ns(), theirs.ns());
    assert_eq!(ours.text(), theirs.text());
    assert_eq!(ours.children().len(), theirs.children().count());
    let y = ours.get_child("y", "n").unwrap();
    let y2 = theirs.get_child("y", "n").unwrap();
    assert_eq!(
        y.get_child("z", "m").unwrap().text(),
        y2.get_child("z", "m").unwrap().text()
    );
}

#[test]
fn malformed_documents_are_refused() {
    assert!(parse_xml("<a xmlns=\"x\"><b></a>").is_err());
    assert!(parse_xml("").is_err());
    let err = parse_xml("<a><b/></a>").err().unwrap();
    assert!(!err.message.is_empty());
}
