use hash_tree::digest::{dir_hash, leaf_hash, metadata_hash};
use hash_tree::fetch::select_context;
use hash_tree::node::{Node, NodeKind, TreeError};
use hash_tree::persist::write_plan;
use hash_tree::workflow::{delete_among, delete_node, init_root, insert_among, insert_node,
    new_node, top_hash, Mutation};

/// A store in memory: the rows of the nodes, keyed by digest, and the root
/// pointer of each user.
struct Store {
    nodes: Vec<Node>,
    tops: Vec<(String, Vec<u8>)>,
}

impl Store {
    fn new() -> Store {
        Store { nodes: vec![], tops: vec![] }
    }

    fn top(&self, user: &str) -> Vec<u8> {
        for (u, h) in &self.tops {
            if u == user {
                return h.clone();
            }
        }
        panic!("no such user");
    }

    fn set_top(&mut self, user: &str, hash: &[u8]) {
        for entry in self.tops.iter_mut() {
            if entry.0 == user {
                entry.1 = hash.to_vec();
                return;
            }
        }
        self.tops.push((user.to_string(), hash.to_vec()));
    }

    fn get(&self, hash: &[u8]) -> Option<Node> {
        self.nodes.iter().find(|n| n.hash == hash).cloned()
    }

    /// Insert if new; where the digest is there already, move it under its
    /// new parent and change nothing else.
    fn upsert(&mut self, tree: &Vec<Node>) {
        for node in tree {
            match self.nodes.iter_mut().find(|n| n.hash == node.hash) {
                Some(row) => row.parent_hash = node.parent_hash.clone(),
                None => {
                    let mut row = node.clone();
                    row.data = vec![];
                    self.nodes.push(row);
                }
            }
        }
    }

    fn commit(&mut self, user: &str, m: &Mutation) {
        let plan = write_plan(&m.new_tree).unwrap();
        assert_eq!(plan.top_hash, m.new_top_hash);
        self.upsert(&m.new_tree);
        self.set_top(user, &plan.top_hash);
    }
}

fn cat(parts: &[&[u8]]) -> Vec<u8> {
    let mut out = Vec::new();
    for p in parts {
        out.extend_from_slice(p);
    }
    out
}

fn empty_dir_hash(name: &[u8]) -> Vec<u8> {
    metadata_hash(&metadata_hash(name))
}

#[test]
fn init_root_makes_a_directory_without_parent() {
    let root = init_root(b"root".to_vec());
    assert_eq!(root.kind, NodeKind::Directory);
    assert_eq!(root.metadata, b"root".to_vec());
    assert_eq!(root.metadata_hash, metadata_hash(b"root"));
    assert_eq!(root.hash, metadata_hash(&metadata_hash(b"root")));
    assert_eq!(root.hash, dir_hash(&metadata_hash(b"root"), &vec![]));
    assert_eq!(root.hash.len(), 48);
    assert!(root.parent_hash.is_empty());
    assert!(root.data_hash.is_empty());
    assert!(root.data.is_empty());
    assert_eq!(top_hash(&vec![root.clone()]), Ok(root.hash));
}

#[test]
fn new_node_makes_an_empty_directory() {
    let n = new_node(&[1; 48], b"docs".to_vec(), NodeKind::Directory, None).unwrap();
    assert_eq!(n.kind, NodeKind::Directory);
    assert_eq!(n.hash, empty_dir_hash(b"docs"));
    assert_eq!(n.parent_hash, vec![1u8; 48]);
    assert_eq!(n.metadata, b"docs".to_vec());
    assert!(n.data_hash.is_empty());
    assert!(n.data.is_empty());
}

#[test]
fn new_node_makes_a_file_with_its_payload() {
    let n = new_node(&[1; 48], b"a.txt".to_vec(), NodeKind::File, Some(b"hi".to_vec())).unwrap();
    assert_eq!(n.kind, NodeKind::File);
    assert_eq!(n.data, b"hi".to_vec());
    assert_eq!(n.data_hash, metadata_hash(b"hi"));
    assert_eq!(n.hash, leaf_hash(&metadata_hash(b"a.txt"), &metadata_hash(b"hi")));
    assert_eq!(
        n.hash,
        metadata_hash(&cat(&[&metadata_hash(b"a.txt"), &metadata_hash(b"hi")]))
    );
}

#[test]
fn new_node_takes_a_file_without_payload_as_empty() {
    let none = new_node(&[1; 48], b"a".to_vec(), NodeKind::File, None).unwrap();
    let empty = new_node(&[1; 48], b"a".to_vec(), NodeKind::File, Some(vec![])).unwrap();
    assert_eq!(none, empty);
    assert_eq!(none.data_hash, metadata_hash(b""));
    assert_eq!(none.hash, leaf_hash(&metadata_hash(b"a"), &metadata_hash(b"")));
}

#[test]
fn new_node_refuses_a_directory_with_payload() {
    assert_eq!(
        new_node(&[1; 48], b"d".to_vec(), NodeKind::Directory, Some(b"x".to_vec())),
        Err(TreeError::InvalidRequest)
    );
    assert_eq!(
        new_node(&[1; 48], b"d".to_vec(), NodeKind::Directory, Some(vec![])),
        Err(TreeError::InvalidRequest)
    );
}

#[test]
fn insert_of_a_directory_with_data_is_rejected_and_changes_nothing() {
    let mut store = Store::new();
    let root = init_root(b"root".to_vec());
    store.upsert(&vec![root.clone()]);
    store.set_top("alice", &root.hash);
    let rows_before = store.nodes.clone();
    let tops_before = store.tops.clone();

    let ctx = select_context(&store.nodes, &root.hash).unwrap();
    let outcome = insert_node(
        ctx,
        &root.hash,
        b"docs".to_vec(),
        NodeKind::Directory,
        Some(b"payload".to_vec()),
    );
    assert_eq!(outcome, Err(TreeError::InvalidRequest));
    // nothing came back that could be written
    assert_eq!(store.nodes, rows_before);
    assert_eq!(store.tops, tops_before);
}

#[test]
fn insert_is_rejected_before_the_parent_is_looked_up() {
    let outcome = insert_node(
        vec![],
        &[1; 48],
        b"docs".to_vec(),
        NodeKind::Directory,
        Some(b"payload".to_vec()),
    );
    assert_eq!(outcome, Err(TreeError::InvalidRequest));
}

#[test]
fn insert_under_a_digest_that_is_not_there_is_not_found() {
    let root = init_root(b"root".to_vec());
    let outcome = insert_node(vec![root], &[1; 48], b"docs".to_vec(), NodeKind::Directory, None);
    assert_eq!(outcome, Err(TreeError::NotFound));
    let outcome = insert_node(vec![], &[1; 48], b"f".to_vec(), NodeKind::File, None);
    assert_eq!(outcome, Err(TreeError::NotFound));
}

#[test]
fn insert_into_a_context_without_root_is_inconsistent() {
    let orphan = new_node(&[9; 48], b"docs".to_vec(), NodeKind::Directory, None).unwrap();
    let start = orphan.hash.clone();
    let outcome = insert_node(vec![orphan], &start, b"f".to_vec(), NodeKind::File, None);
    assert_eq!(outcome, Err(TreeError::InconsistentTree));
}

#[test]
fn insert_round_trip_finds_the_new_node_by_its_digest() {
    let mut store = Store::new();
    let root = init_root(b"root".to_vec());
    store.upsert(&vec![root.clone()]);
    store.set_top("alice", &root.hash);

    let ctx = select_context(&store.nodes, &root.hash).unwrap();
    let m = insert_node(ctx, &root.hash, b"a.txt".to_vec(), NodeKind::File, Some(b"hi".to_vec()))
        .unwrap();
    store.commit("alice", &m);

    let new_hash = leaf_hash(&metadata_hash(b"a.txt"), &metadata_hash(b"hi"));
    let got = store.get(&new_hash).unwrap();
    assert_eq!(got.metadata, b"a.txt".to_vec());
    assert_eq!(got.kind, NodeKind::File);
    assert_eq!(got.parent_hash, m.new_top_hash);
    // the new node is the last of the new tree
    let last = m.new_tree.last().unwrap();
    assert_eq!(last.hash, new_hash);
    assert_eq!(last.metadata, b"a.txt".to_vec());
    assert_eq!(last.data, b"hi".to_vec());
    assert_eq!(m.new_tree.len(), m.old_tree.len() + 1);
}

#[test]
fn insert_reports_the_trees_before_and_after() {
    let root = init_root(b"root".to_vec());
    let m = insert_node(vec![root.clone()], &root.hash, b"docs".to_vec(), NodeKind::Directory, None)
        .unwrap();
    assert_eq!(m.old_tree, vec![root.clone()]);
    assert_eq!(m.new_tree.len(), 2);
    let docs = empty_dir_hash(b"docs");
    let top = metadata_hash(&cat(&[&metadata_hash(b"root"), &docs]));
    assert_eq!(m.new_top_hash, top);
    assert_eq!(m.new_tree[0].hash, top);
    assert_eq!(m.new_tree[0].metadata, b"root".to_vec());
    assert_eq!(m.new_tree[1].hash, docs);
    assert_eq!(m.new_tree[1].parent_hash, top);
}

#[test]
fn insert_changes_every_ancestor_up_to_the_root() {
    // root <- a <- b, insert a file under b
    let mut store = Store::new();
    let root = init_root(b"root".to_vec());
    store.upsert(&vec![root.clone()]);
    store.set_top("alice", &root.hash);
    let mut parent = root.hash.clone();
    for name in [b"a", b"b"] {
        let ctx = select_context(&store.nodes, &parent).unwrap();
        let m = insert_node(ctx, &parent, name.to_vec(), NodeKind::Directory, None).unwrap();
        store.commit("alice", &m);
        parent = empty_dir_hash(name);
    }
    let ctx = select_context(&store.nodes, &parent).unwrap();
    assert_eq!(ctx.len(), 3);
    let before: Vec<Vec<u8>> = ctx.iter().map(|n| n.hash.clone()).collect();
    let old_top = store.top("alice");
    let m = insert_node(ctx, &parent, b"f".to_vec(), NodeKind::File, Some(b"x".to_vec())).unwrap();
    store.commit("alice", &m);
    for i in 0..3 {
        assert_ne!(m.new_tree[i].hash, before[i]);
        assert_eq!(m.new_tree[i].metadata, m.old_tree[i].metadata);
    }
    assert_ne!(m.new_top_hash, old_top);
    assert_eq!(store.top("alice"), m.new_top_hash);
    let root_now = m.new_tree.iter().find(|n| n.parent_hash.is_empty()).unwrap();
    assert_eq!(root_now.hash, m.new_top_hash);
}

#[test]
fn inserting_two_children_in_either_order_gives_the_same_top_hash() {
    let run = |first: &[u8], second: &[u8]| -> Vec<u8> {
        let mut store = Store::new();
        let root = init_root(b"root".to_vec());
        store.upsert(&vec![root.clone()]);
        store.set_top("alice", &root.hash);
        for name in [first, second] {
            let top = store.top("alice");
            let ctx = select_context(&store.nodes, &top).unwrap();
            let m = insert_node(ctx, &top, name.to_vec(), NodeKind::Directory, None).unwrap();
            store.commit("alice", &m);
        }
        store.top("alice")
    };
    let ab = run(b"A", b"B");
    let ba = run(b"B", b"A");
    assert_eq!(ab, ba);
    let mut kids = vec![empty_dir_hash(b"A"), empty_dir_hash(b"B")];
    kids.sort();
    assert_eq!(ab, dir_hash(&metadata_hash(b"root"), &kids));
}

#[test]
fn end_to_end_insert_insert_delete() {
    let mut store = Store::new();

    // create root R for alice
    let root = init_root(b"root".to_vec());
    let t0 = root.hash.clone();
    store.upsert(&vec![root.clone()]);
    store.set_top("alice", &t0);
    assert_eq!(t0, metadata_hash(&metadata_hash(b"root")));

    // insert an empty directory "docs" under R
    let ctx = select_context(&store.nodes, &t0).unwrap();
    let m1 = insert_node(ctx, &t0, b"docs".to_vec(), NodeKind::Directory, None).unwrap();
    store.commit("alice", &m1);
    let t1 = store.top("alice");
    assert_ne!(t1, t0);
    assert_ne!(store.top("alice"), root.hash);
    let docs0 = empty_dir_hash(b"docs");
    assert_eq!(t1, metadata_hash(&cat(&[&metadata_hash(b"root"), &docs0])));

    // insert the file "a.txt" with payload "hi" under the current docs
    let ctx = select_context(&store.nodes, &docs0).unwrap();
    assert_eq!(ctx.len(), 2);
    let m2 = insert_node(ctx, &docs0, b"a.txt".to_vec(), NodeKind::File, Some(b"hi".to_vec()))
        .unwrap();
    store.commit("alice", &m2);
    let t2 = store.top("alice");
    assert_ne!(t2, t1);
    let a_txt = leaf_hash(&metadata_hash(b"a.txt"), &metadata_hash(b"hi"));
    let docs1 = metadata_hash(&cat(&[&metadata_hash(b"docs"), &a_txt]));
    assert_eq!(t2, metadata_hash(&cat(&[&metadata_hash(b"root"), &docs1])));
    let plan = write_plan(&m2.new_tree).unwrap();
    let payload = plan.payload.unwrap();
    assert_eq!(payload.hash, a_txt);
    assert_eq!(payload.data, b"hi".to_vec());

    // delete "a.txt": the tree is R with a single empty docs again
    let ctx = select_context(&store.nodes, &a_txt).unwrap();
    assert_eq!(ctx.len(), 3);
    let m3 = delete_node(ctx, &a_txt).unwrap();
    store.commit("alice", &m3);
    let t3 = store.top("alice");
    assert_eq!(t3, t1);
    assert_eq!(m3.new_tree.len(), 2);
    assert!(m3.new_tree.iter().all(|n| n.hash != a_txt));
    // the row of the deleted node is still in the store
    assert!(store.get(&a_txt).is_some());
}

#[test]
fn delete_of_a_digest_that_is_not_there_is_not_found() {
    let root = init_root(b"root".to_vec());
    assert_eq!(delete_node(vec![root], &[1; 48]), Err(TreeError::NotFound));
    assert_eq!(delete_node(vec![], &[1; 48]), Err(TreeError::NotFound));
}

#[test]
fn delete_of_the_root_is_inconsistent() {
    let root = init_root(b"root".to_vec());
    let h = root.hash.clone();
    assert_eq!(delete_node(vec![root], &h), Err(TreeError::InconsistentTree));
}

#[test]
fn delete_takes_the_node_out_and_rehashes_its_parent() {
    let root = init_root(b"root".to_vec());
    let m = insert_node(vec![root.clone()], &root.hash, b"docs".to_vec(), NodeKind::Directory, None)
        .unwrap();
    let docs = empty_dir_hash(b"docs");
    let d = delete_node(m.new_tree.clone(), &docs).unwrap();
    assert_eq!(d.old_tree, m.new_tree);
    assert_eq!(d.new_tree.len(), 1);
    assert_eq!(d.new_tree[0].hash, root.hash);
    assert_eq!(d.new_top_hash, root.hash);
}

#[test]
fn top_hash_wants_exactly_one_root_that_is_a_directory() {
    let root = init_root(b"root".to_vec());
    let other = init_root(b"other".to_vec());
    let child = new_node(&root.hash, b"d".to_vec(), NodeKind::Directory, None).unwrap();
    let mut stray = new_node(b"", b"f".to_vec(), NodeKind::File, None).unwrap();
    stray.parent_hash = vec![];
    assert_eq!(top_hash(&vec![child.clone(), root.clone()]), Ok(root.hash.clone()));
    assert_eq!(top_hash(&vec![]), Err(TreeError::InconsistentTree));
    assert_eq!(top_hash(&vec![child.clone()]), Err(TreeError::InconsistentTree));
    assert_eq!(top_hash(&vec![root.clone(), other]), Err(TreeError::InconsistentTree));
    assert_eq!(top_hash(&vec![stray]), Err(TreeError::InconsistentTree));
}

#[test]
fn select_context_takes_ancestors_their_siblings_and_the_children() {
    // root <- a <- b <- c ; a has sibling s ; b has sibling t ; t has child u ; c has child k
    let n = |hash: u8, parent: &[u8]| Node {
        hash: vec![hash; 48],
        kind: NodeKind::Directory,
        metadata: vec![hash],
        metadata_hash: metadata_hash(&[hash]),
        parent_hash: parent.to_vec(),
        data_hash: vec![],
        data: vec![],
    };
    let store = vec![
        n(1, b""),
        n(2, &[1; 48]),
        n(3, &[2; 48]),
        n(4, &[3; 48]),
        n(5, &[1; 48]),
        n(6, &[2; 48]),
        n(7, &[6; 48]),
        n(8, &[3; 48]),
        n(9, b""),
    ];
    // context of b (3): b, a, root; siblings s (5), t (6); children c (4), (8)
    let ctx = select_context(&store, &[3; 48]).unwrap();
    let got: Vec<u8> = ctx.iter().map(|x| x.hash[0]).collect();
    assert_eq!(got, vec![1, 2, 3, 4, 5, 6, 8]);
    // a second root in the store is no sibling of the root
    let ctx = select_context(&store, &[1; 48]).unwrap();
    let got: Vec<u8> = ctx.iter().map(|x| x.hash[0]).collect();
    assert_eq!(got, vec![1, 2, 5]);
}

#[test]
fn select_context_twice_gives_the_same_nodes() {
    let root = init_root(b"root".to_vec());
    let m = insert_node(vec![root.clone()], &root.hash, b"docs".to_vec(), NodeKind::Directory, None)
        .unwrap();
    let store = m.new_tree;
    let one = select_context(&store, &m.new_top_hash).unwrap();
    let two = select_context(&store, &m.new_top_hash).unwrap();
    assert_eq!(one, two);
    assert_eq!(one, store);
}

#[test]
fn select_context_fails_when_the_target_is_absent_or_the_chain_loops() {
    let root = init_root(b"root".to_vec());
    assert_eq!(select_context(&vec![root], &[1; 48]), Err(TreeError::NotFound));
    assert_eq!(select_context(&vec![], &[1; 48]), Err(TreeError::NotFound));
    let a = new_node(&[2; 48], b"a".to_vec(), NodeKind::Directory, None).unwrap();
    let mut looped = a.clone();
    looped.parent_hash = a.hash.clone();
    let h = looped.hash.clone();
    assert_eq!(select_context(&vec![looped], &h), Err(TreeError::InconsistentTree));
}

#[test]
fn inserting_the_same_directory_twice_leaves_the_top_hash() {
    // the children of a directory are a set of digests: a second child with
    // a digest that is there already changes no ancestor
    let mut store = Store::new();
    let root = init_root(b"root".to_vec());
    store.upsert(&vec![root.clone()]);
    store.set_top("alice", &root.hash);
    let ctx = select_context(&store.nodes, &root.hash).unwrap();
    let m1 = insert_node(ctx, &root.hash, b"docs".to_vec(), NodeKind::Directory, None).unwrap();
    store.commit("alice", &m1);
    let t1 = store.top("alice");
    let ctx = select_context(&store.nodes, &t1).unwrap();
    let m2 = insert_node(ctx, &t1, b"docs".to_vec(), NodeKind::Directory, None).unwrap();
    assert_eq!(m2.new_top_hash, t1);
    assert_eq!(m2.new_tree.len(), 3);
    assert_eq!(m2.new_tree[2].hash, empty_dir_hash(b"docs"));
    assert_eq!(m2.new_tree[2].parent_hash, t1);
}

#[test]
fn update_after_insert_is_consistent_along_the_path() {
    // every node on the way up has the digest of its content, and its
    // children name that digest
    let root = init_root(b"root".to_vec());
    let m1 = insert_node(vec![root.clone()], &root.hash, b"a".to_vec(), NodeKind::Directory, None)
        .unwrap();
    let a0 = empty_dir_hash(b"a");
    let m2 = insert_node(m1.new_tree.clone(), &a0, b"f".to_vec(), NodeKind::File, Some(b"x".to_vec()))
        .unwrap();
    let tree = &m2.new_tree;
    let f = leaf_hash(&metadata_hash(b"f"), &metadata_hash(b"x"));
    let a1 = dir_hash(&metadata_hash(b"a"), &vec![f.clone()]);
    let r = dir_hash(&metadata_hash(b"root"), &vec![a1.clone()]);
    assert_eq!(tree[0].hash, r);
    assert_eq!(tree[1].hash, a1);
    assert_eq!(tree[1].parent_hash, r);
    assert_eq!(tree[2].hash, f);
    assert_eq!(tree[2].parent_hash, a1);
    assert_eq!(m2.new_top_hash, r);
    for (i, node) in tree.iter().enumerate() {
        assert_eq!(hash_tree::mutator::recompute(tree, i), node.hash);
    }
}

#[test]
fn the_context_gives_the_ancestors_the_digests_that_the_store_gives() {
    // root <- a <- b, with siblings on every level and a stale second root
    let n = |hash: u8, parent: &[u8]| Node {
        hash: vec![hash; 48],
        kind: NodeKind::Directory,
        metadata: vec![hash],
        metadata_hash: metadata_hash(&[hash]),
        parent_hash: parent.to_vec(),
        data_hash: vec![],
        data: vec![],
    };
    let store = vec![
        n(9, b""),
        n(6, &[2; 48]),
        n(1, b""),
        n(5, &[1; 48]),
        n(2, &[1; 48]),
        n(3, &[2; 48]),
        n(4, &[3; 48]),
        n(7, &[5; 48]),
    ];
    let ctx = select_context(&store, &[3; 48]).unwrap();
    for ancestor in [3u8, 2, 1] {
        let in_store = hash_tree::ancestry::find(&store, &[ancestor; 48]).unwrap();
        let in_ctx = hash_tree::ancestry::find(&ctx, &[ancestor; 48]).unwrap();
        assert_eq!(
            hash_tree::mutator::recompute(&ctx, in_ctx),
            hash_tree::mutator::recompute(&store, in_store)
        );
        assert_eq!(
            hash_tree::mutator::children_of(&ctx, &[ancestor; 48]),
            hash_tree::mutator::children_of(&store, &[ancestor; 48])
        );
    }
    // what hangs under a sibling is not needed
    assert!(ctx.iter().all(|x| x.hash != vec![7u8; 48] && x.hash != vec![9u8; 48]));
}

#[test]
fn new_nodes_have_digests_of_48_bytes() {
    let root = init_root(b"root".to_vec());
    assert_eq!(root.hash.len(), 48);
    assert_eq!(root.metadata_hash.len(), 48);
    let d = new_node(&[1; 48], b"docs".to_vec(), NodeKind::Directory, None).unwrap();
    assert_eq!((d.hash.len(), d.metadata_hash.len(), d.data_hash.len()), (48, 48, 0));
    let f = new_node(&[1; 48], b"f".to_vec(), NodeKind::File, None).unwrap();
    assert_eq!((f.hash.len(), f.metadata_hash.len(), f.data_hash.len()), (48, 48, 48));
    let m = insert_node(vec![root.clone()], &root.hash, b"f".to_vec(), NodeKind::File, None).unwrap();
    assert!(m.new_tree.iter().all(|n| n.hash.len() == 48));
    assert_eq!(m.new_top_hash.len(), 48);
}

#[test]
fn insert_does_not_depend_on_the_order_of_the_rows() {
    // root <- a <- b with a sibling of a; the rows come in two orders
    let root = init_root(b"root".to_vec());
    let m1 = insert_node(vec![root.clone()], &root.hash, b"a".to_vec(), NodeKind::Directory, None)
        .unwrap();
    let m2 = insert_node(m1.new_tree.clone(), &m1.new_top_hash, b"s".to_vec(), NodeKind::Directory, None)
        .unwrap();
    let a = empty_dir_hash(b"a");
    let rows = m2.new_tree.clone();
    let mut turned = rows.clone();
    turned.reverse();
    let one = insert_node(rows, &a, b"b".to_vec(), NodeKind::Directory, None).unwrap();
    let two = insert_node(turned, &a, b"b".to_vec(), NodeKind::Directory, None).unwrap();
    assert_eq!(one.new_top_hash, two.new_top_hash);
    let by_name = |mut nodes: Vec<Node>| {
        nodes.sort_by(|x, y| x.metadata.cmp(&y.metadata));
        nodes
    };
    assert_eq!(by_name(one.new_tree), by_name(two.new_tree));
}

#[test]
fn insert_among_uses_the_context_and_nothing_else_of_the_rows() {
    let root = init_root(b"root".to_vec());
    let m = insert_node(vec![root.clone()], &root.hash, b"a".to_vec(), NodeKind::Directory, None)
        .unwrap();
    let mut rows = m.new_tree.clone();
    // a stale root and a node under something else
    rows.insert(0, root.clone());
    rows.push(new_node(&[7; 48], b"far".to_vec(), NodeKind::Directory, None).unwrap());
    let among = insert_among(&rows, &m.new_top_hash, b"b".to_vec(), NodeKind::Directory, None)
        .unwrap();
    let plain = insert_node(m.new_tree.clone(), &m.new_top_hash, b"b".to_vec(), NodeKind::Directory, None)
        .unwrap();
    assert_eq!(among, plain);
    assert_eq!(among.old_tree, m.new_tree);
}

#[test]
fn insert_among_refuses_the_request_before_the_parent_is_missed() {
    let root = init_root(b"root".to_vec());
    let rows = vec![root.clone()];
    assert_eq!(
        insert_among(&rows, &[9; 48], b"d".to_vec(), NodeKind::Directory, Some(vec![1])),
        Err(TreeError::InvalidRequest)
    );
    assert_eq!(
        insert_among(&rows, &[9; 48], b"d".to_vec(), NodeKind::Directory, None),
        Err(TreeError::NotFound)
    );
    assert_eq!(
        insert_among(&vec![], &[9; 48], b"f".to_vec(), NodeKind::File, None),
        Err(TreeError::NotFound)
    );
}

#[test]
fn delete_among_takes_the_context_from_the_rows() {
    let root = init_root(b"root".to_vec());
    let m = insert_node(vec![root.clone()], &root.hash, b"a".to_vec(), NodeKind::Directory, None)
        .unwrap();
    let a = empty_dir_hash(b"a");
    let mut rows = m.new_tree.clone();
    rows.insert(0, root.clone());
    let among = delete_among(&rows, &a).unwrap();
    assert_eq!(among, delete_node(m.new_tree.clone(), &a).unwrap());
    assert_eq!(among.new_top_hash, root.hash);
    assert_eq!(delete_among(&rows, &[9; 48]), Err(TreeError::NotFound));
    assert_eq!(delete_among(&vec![root.clone()], &root.hash), Err(TreeError::InconsistentTree));
}

#[test]
fn delete_after_insert_gives_back_the_context() {
    // root <- a <- b, with a sibling of a; insert a file under b, delete it
    let root = init_root(b"root".to_vec());
    let m1 = insert_node(vec![root.clone()], &root.hash, b"a".to_vec(), NodeKind::Directory, None)
        .unwrap();
    let m2 = insert_node(m1.new_tree.clone(), &m1.new_top_hash, b"s".to_vec(), NodeKind::Directory, None)
        .unwrap();
    let a = empty_dir_hash(b"a");
    let m3 = insert_node(m2.new_tree.clone(), &a, b"b".to_vec(), NodeKind::Directory, None).unwrap();
    let before = m3.new_tree.clone();
    let top = m3.new_top_hash.clone();
    let b = empty_dir_hash(b"b");

    let put = insert_node(before.clone(), &b, b"f".to_vec(), NodeKind::File, Some(b"x".to_vec()))
        .unwrap();
    assert_ne!(put.new_top_hash, top);
    let f = put.new_tree.last().unwrap().hash.clone();
    let taken = delete_node(put.new_tree.clone(), &f).unwrap();
    assert_eq!(taken.new_tree, before);
    assert_eq!(taken.new_top_hash, top);
    assert_eq!(taken.old_tree, put.new_tree);
}

#[test]
fn after_an_insert_the_old_digests_of_the_ancestors_are_gone() {
    let root = init_root(b"root".to_vec());
    let m1 = insert_node(vec![root.clone()], &root.hash, b"a".to_vec(), NodeKind::Directory, None)
        .unwrap();
    let a = empty_dir_hash(b"a");
    let old: Vec<Vec<u8>> = m1.new_tree.iter().map(|n| n.hash.clone()).collect();
    let m2 = insert_node(m1.new_tree.clone(), &a, b"f".to_vec(), NodeKind::File, None).unwrap();
    for node in &m2.new_tree {
        assert!(!old.contains(&node.hash));
        assert!(!old.contains(&node.parent_hash));
    }
}

#[test]
fn two_inserts_under_one_directory_commute() {
    // root <- docs ; under docs the files a and b in either order
    let root = init_root(b"root".to_vec());
    let start = insert_node(vec![root.clone()], &root.hash, b"docs".to_vec(), NodeKind::Directory, None)
        .unwrap()
        .new_tree;
    let docs = empty_dir_hash(b"docs");
    let run = |first: &[u8], second: &[u8]| -> Mutation {
        let m1 = insert_node(start.clone(), &docs, first.to_vec(), NodeKind::File, Some(first.to_vec()))
            .unwrap();
        let docs_now = m1.new_tree[1].hash.clone();
        assert_eq!(m1.new_tree[1].metadata, b"docs".to_vec());
        insert_node(m1.new_tree, &docs_now, second.to_vec(), NodeKind::File, Some(second.to_vec()))
            .unwrap()
    };
    let ab = run(b"a", b"b");
    let ba = run(b"b", b"a");
    assert_eq!(ab.new_top_hash, ba.new_top_hash);
    assert_eq!(ab.new_tree.len(), 4);
    assert_eq!(ab.new_tree[0], ba.new_tree[0]);
    assert_eq!(ab.new_tree[1], ba.new_tree[1]);
    assert_eq!(ab.new_tree[2], ba.new_tree[3]);
    assert_eq!(ab.new_tree[3], ba.new_tree[2]);
}

#[test]
fn insert_of_a_node_with_the_digest_of_an_ancestor_does_not_depend_on_the_rows() {
    // g/M holds p/N holds the empty c/M; a file N whose payload is the digest
    // of M gets the digest of p, and c then gets the digest that g had
    let h_m = metadata_hash(b"M");
    let h_n = metadata_hash(b"N");
    let c = metadata_hash(&h_m);
    let p = metadata_hash(&cat(&[&h_n, &c]));
    let g = metadata_hash(&cat(&[&h_m, &p]));
    let node = |hash: &[u8], name: &[u8], parent: &[u8]| Node {
        hash: hash.to_vec(),
        kind: NodeKind::Directory,
        metadata: name.to_vec(),
        metadata_hash: metadata_hash(name),
        parent_hash: parent.to_vec(),
        data_hash: vec![],
        data: vec![],
    };
    let rows = vec![node(&c, b"M", &p), node(&p, b"N", &g), node(&g, b"M", b"")];
    let mut turned = rows.clone();
    turned.reverse();
    let file = new_node(&c, b"N".to_vec(), NodeKind::File, Some(h_m.clone())).unwrap();
    assert_eq!(file.hash, p);

    let one = insert_among(&rows, &c, b"N".to_vec(), NodeKind::File, Some(h_m.clone())).unwrap();
    let two = insert_among(&turned, &c, b"N".to_vec(), NodeKind::File, Some(h_m.clone())).unwrap();
    assert_eq!(one.new_top_hash, two.new_top_hash);
    let c_now = one.new_tree.iter().find(|n| n.metadata == b"M".to_vec() && !n.parent_hash.is_empty());
    assert_eq!(c_now.unwrap().hash, g);
    let by_digest = |mut nodes: Vec<Node>| {
        nodes.sort_by(|x, y| (&x.hash, &x.parent_hash).cmp(&(&y.hash, &y.parent_hash)));
        nodes
    };
    assert_eq!(by_digest(one.new_tree), by_digest(two.new_tree));
}
