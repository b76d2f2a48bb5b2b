use importer::error::{ErrorKind, MyError};
use importer::tree::{plan, BlockNode, LeafKind};
use importer::walk::{Action, Migration};
use std::collections::HashMap;

fn node(id: &str, kind: &str, children: Vec<BlockNode>) -> BlockNode {
    BlockNode { id: Some(id.to_string()), kind: Some(kind.to_string()), children }
}

/// Runs a migration against an in-memory store and records each call.
fn run(root: &BlockNode, store: &mut HashMap<String, String>) -> (Vec<String>, Option<MyError>) {
    let mut calls = Vec::new();
    let (mut m, mut action) = Migration::new(root);
    loop {
        action = match action {
            Action::Fetch { id } => {
                calls.push(format!("fetch {}", id));
                match store.get(&id) {
                    Some(text) => {
                        let text = text.clone();
                        m.fetched(&text)
                    }
                    None => m.failed(MyError {
                        kind: ErrorKind::NotFound,
                        block: None,
                        detail: "missing".to_string(),
                    }),
                }
            }
            Action::Write { id, content } => {
                calls.push(format!("write {}", id));
                store.insert(id, content);
                m.written()
            }
            Action::Done => return (calls, None),
            Action::Abort(e) => return (calls, Some(e)),
        };
    }
}

#[test]
fn container_children_are_visited_in_document_order() {
    let root = node(
        "doc",
        "NodeDocument",
        vec![
            node("p1", "NodeParagraph", vec![]),
            node(
                "c",
                "NodeList",
                vec![node("p2", "NodeParagraph", vec![]), node("p3", "NodeParagraph", vec![])],
            ),
        ],
    );
    let mut store = HashMap::new();
    for id in ["p1", "p2", "p3", "c"] {
        store.insert(id.to_string(), format!("[x](y.png) {}\n{{: id=\"{}\"}}", id, id));
    }
    let (calls, err) = run(&root, &mut store);
    assert!(err.is_none());
    assert_eq!(
        calls,
        vec!["fetch p1", "write p1", "fetch p2", "write p2", "fetch p3", "write p3"]
    );
    assert_eq!(store["p2"], "![x](y.png) p2");
    assert_eq!(store["c"], "[x](y.png) c\n{: id=\"c\"}");
}

#[test]
fn transform_failure_stops_the_document() {
    let root = node(
        "doc",
        "NodeDocument",
        vec![
            node("b1", "NodeParagraph", vec![]),
            node("b2", "NodeMathBlock", vec![]),
            node("b3", "NodeParagraph", vec![]),
        ],
    );
    let mut store = HashMap::new();
    store.insert("b1".to_string(), "one\nmeta".to_string());
    store.insert("b2".to_string(), "$$\n$x$\nm".to_string());
    store.insert("b3".to_string(), "three\nmeta".to_string());
    let (calls, err) = run(&root, &mut store);
    assert_eq!(calls, vec!["fetch b1", "write b1", "fetch b2"]);
    let err = err.unwrap();
    assert_eq!(err.kind, ErrorKind::Transform);
    assert_eq!(err.block.as_deref(), Some("b2"));
    assert_eq!(store["b3"], "three\nmeta");
}

#[test]
fn remote_failure_names_the_block() {
    let root = node("doc", "NodeDocument", vec![node("gone", "NodeBlockquote", vec![])]);
    let mut store = HashMap::new();
    let (calls, err) = run(&root, &mut store);
    assert_eq!(calls, vec!["fetch gone"]);
    let err = err.unwrap();
    assert_eq!(err.kind, ErrorKind::NotFound);
    assert_eq!(err.message(), "not found in block gone: missing");
}

#[test]
fn leaf_children_and_untyped_nodes_are_not_visited() {
    let untyped = BlockNode {
        id: Some("u".to_string()),
        kind: None,
        children: vec![node("hidden", "NodeParagraph", vec![])],
    };
    let no_id = BlockNode { id: None, kind: Some("NodeParagraph".to_string()), children: vec![] };
    let root = node(
        "doc",
        "NodeDocument",
        vec![
            node("q", "NodeBlockquote", vec![node("inner", "NodeParagraph", vec![])]),
            untyped,
            no_id,
            node("m", "NodeMathBlock", vec![]),
        ],
    );
    let tasks = plan(&root);
    let seen: Vec<(String, LeafKind)> = tasks.into_iter().map(|t| (t.id, t.kind)).collect();
    assert_eq!(
        seen,
        vec![("q".to_string(), LeafKind::Blockquote), ("m".to_string(), LeafKind::MathBlock)]
    );
}

#[test]
fn document_without_leaf_blocks_is_done_at_once() {
    let root = node("doc", "NodeDocument", vec![node("h", "NodeHeading", vec![])]);
    let (_m, action) = Migration::new(&root);
    assert!(matches!(action, Action::Done));
}

#[test]
fn error_message_without_block() {
    let e = MyError { kind: ErrorKind::Parse, block: None, detail: "bad json".to_string() };
    assert_eq!(e.message(), "parse error: bad json");
}
