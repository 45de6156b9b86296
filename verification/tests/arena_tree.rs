use std::cell::Cell;

use arena_tree::arena::Arena;
use arena_tree::model::Node;
use arena_tree::wire::{WireNode, WireTree};
use serde_json::Value;

struct DropTracker<'a>(&'a Cell<u32>);

impl<'a> Drop for DropTracker<'a> {
    fn drop(&mut self) {
        self.0.set(self.0.get() + 1);
    }
}

#[test]
fn it_works() {
    let drop_counter = Cell::new(0);
    {
        let mut new_counter = 0;
        let mut arena = Arena::new();
        let mut new = |arena: &mut Arena<_>| {
            new_counter += 1;
            Node::new(arena, (new_counter, DropTracker(&drop_counter)))
        };

        let a = new(&mut arena); // 1
        let n = new(&mut arena);
        a.append(&mut arena, n); // 2
        let n = new(&mut arena);
        a.append(&mut arena, n); // 3
        let n = new(&mut arena);
        a.prepend(&mut arena, n); // 4
        let b = new(&mut arena); // 5
        b.append(&mut arena, a);
        let n = new(&mut arena);
        a.insert_before(&mut arena, n); // 6
        let n = new(&mut arena);
        a.insert_before(&mut arena, n); // 7
        let n = new(&mut arena);
        a.insert_after(&mut arena, n); // 8
        let n = new(&mut arena);
        a.insert_after(&mut arena, n); // 9
        let c = new(&mut arena); // 10
        b.append(&mut arena, c);

        assert_eq!(drop_counter.get(), 0);
        c.previous_sibling(&arena).unwrap().detach(&mut arena);
        assert_eq!(drop_counter.get(), 0);

        let mut seen = Vec::new();
        let mut it = b.descendants(&arena);
        while let Some(node) = it.next() {
            seen.push(node.data(&arena).0);
        }
        assert_eq!(seen, [5, 6, 7, 1, 4, 2, 3, 9, 10]);
    }

    assert_eq!(drop_counter.get(), 10);
}

/// The flat tree a JSON text describes, read by hand from its JSON value.
fn wire_from_json(text: &str) -> WireTree<String> {
    let value: Value = serde_json::from_str(text).unwrap();
    let link = |node: &serde_json::Map<String, Value>, key: &str| node.get(key).and_then(|v| v.as_u64()).map(|v| v as u32);
    let nodes = value["nodes"]
        .as_array()
        .unwrap()
        .iter()
        .map(|node| {
            let node = node.as_object().unwrap();
            WireNode {
                id: link(node, "id").unwrap(),
                parent: link(node, "parent"),
                previous_sibling: link(node, "previous_sibling"),
                next_sibling: link(node, "next_sibling"),
                first_child: link(node, "first_child"),
                last_child: link(node, "last_child"),
                data: node["data"].as_str().unwrap().to_string(),
            }
        })
        .collect();
    WireTree { nodes }
}

/// The JSON text of a flat tree, written by hand, leaving out absent links.
fn wire_to_json(wire: &WireTree<&&str>) -> String {
    let nodes: Vec<Value> = wire
        .nodes
        .iter()
        .map(|node| {
            let mut map = serde_json::Map::new();
            map.insert("id".to_string(), Value::from(node.id));
            let links = [
                ("parent", node.parent),
                ("previous_sibling", node.previous_sibling),
                ("next_sibling", node.next_sibling),
                ("first_child", node.first_child),
                ("last_child", node.last_child),
            ];
            for (key, link) in links {
                if let Some(i) = link {
                    map.insert(key.to_string(), Value::from(i));
                }
            }
            map.insert("data".to_string(), Value::from(*node.data));
            Value::Object(map)
        })
        .collect();
    let mut tree = serde_json::Map::new();
    tree.insert("nodes".to_string(), Value::Array(nodes));
    serde_json::to_string(&Value::Object(tree)).unwrap()
}

#[test]
fn basic_serialization_roundtrip() {
    let mut arena = Arena::new();
    let root = Node::new(&mut arena, "root");
    let child1 = Node::new(&mut arena, "child1");
    let child2 = Node::new(&mut arena, "child2");
    root.append(&mut arena, child1);
    root.append(&mut arena, child2);

    let serialized = wire_to_json(&root.to_wire(&arena));
    let (deserialized_arena, deserialized) = Arena::from_wire(wire_from_json(&serialized)).unwrap();

    assert_eq!(deserialized.data(&deserialized_arena), "root");

    let mut children = deserialized.children(&deserialized_arena);
    assert_eq!(children.next().unwrap().data(&deserialized_arena), "child1");
    assert_eq!(children.next().unwrap().data(&deserialized_arena), "child2");
    assert!(children.next().is_none());
}

#[test]
fn empty_tree_serialization_fails() {
    let result = Arena::from_wire(wire_from_json(r#"{"nodes":[]}"#));
    assert!(result.is_err());
}

#[test]
fn out_of_bounds_index_fails() {
    let result = Arena::from_wire(wire_from_json(
        r#"{
    "nodes": [
        {
            "id": 0,
            "first_child": 1,
            "last_child": 1,
            "data": "root"
        }
    ]
}"#,
    ));
    assert!(result.is_err());
}
