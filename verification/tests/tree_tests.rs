use hash_tree::digest::{dir_hash, leaf_hash, metadata_hash};
use hash_tree::ancestry::{chain_of, find};
use hash_tree::mutator::{children_of, recompute, relink, update_tree};
use hash_tree::node::{duplicate_all, Node, NodeKind, TreeError};

fn dir(hash: &[u8], name: &[u8], parent: &[u8]) -> Node {
    Node {
        hash: hash.to_vec(),
        kind: NodeKind::Directory,
        metadata: name.to_vec(),
        metadata_hash: metadata_hash(name),
        parent_hash: parent.to_vec(),
        data_hash: vec![],
        data: vec![],
    }
}

fn file(hash: &[u8], name: &[u8], parent: &[u8], content: &[u8]) -> Node {
    Node {
        hash: hash.to_vec(),
        kind: NodeKind::File,
        metadata: name.to_vec(),
        metadata_hash: metadata_hash(name),
        parent_hash: parent.to_vec(),
        data_hash: metadata_hash(content),
        data: vec![],
    }
}

fn cat(parts: &[&[u8]]) -> Vec<u8> {
    let mut out = Vec::new();
    for p in parts {
        out.extend_from_slice(p);
    }
    out
}

#[test]
fn update_tree_fails_when_start_is_absent() {
    let ctx = vec![dir(&[1; 48], b"root", b"")];
    assert_eq!(update_tree(&[9; 48], ctx), Err(TreeError::InconsistentTree));
}

#[test]
fn update_tree_fails_on_an_empty_context() {
    assert_eq!(update_tree(&[9; 48], vec![]), Err(TreeError::InconsistentTree));
}

#[test]
fn update_tree_gives_an_empty_directory_the_digest_of_its_metadata_digest() {
    let ctx = vec![dir(&[1; 48], b"root", b"")];
    let out = update_tree(&[1; 48], ctx).unwrap();
    assert_eq!(out.len(), 1);
    assert_eq!(out[0].hash, metadata_hash(&metadata_hash(b"root")));
    assert_eq!(out[0].parent_hash, Vec::<u8>::new());
    assert_eq!(out[0].metadata, b"root".to_vec());
}

#[test]
fn update_tree_orders_children_ascending_whatever_their_position() {
    let lo = [3u8; 48];
    let hi = [200u8; 48];
    let expected = metadata_hash(&cat(&[&metadata_hash(b"root"), &lo, &hi]));
    let one = vec![
        dir(&[1; 48], b"root", b""),
        dir(&lo, b"a", &[1; 48]),
        dir(&hi, b"b", &[1; 48]),
    ];
    let two = vec![
        dir(&hi, b"b", &[1; 48]),
        dir(&[1; 48], b"root", b""),
        dir(&lo, b"a", &[1; 48]),
    ];
    let out_one = update_tree(&[1; 48], one).unwrap();
    let out_two = update_tree(&[1; 48], two).unwrap();
    assert_eq!(out_one[0].hash, expected);
    assert_eq!(out_two[1].hash, expected);
}

#[test]
fn update_tree_compares_children_byte_by_byte() {
    // the second byte decides, and a prefix comes before what extends it
    let a = vec![5u8, 1, 9];
    let b = vec![5u8, 2];
    let c = vec![5u8];
    let ctx = vec![
        dir(&[1; 48], b"root", b""),
        dir(&a, b"a", &[1; 48]),
        dir(&b, b"b", &[1; 48]),
        dir(&c, b"c", &[1; 48]),
    ];
    let out = update_tree(&[1; 48], ctx).unwrap();
    assert_eq!(
        out[0].hash,
        metadata_hash(&cat(&[&metadata_hash(b"root"), &c, &a, &b]))
    );
}

#[test]
fn update_tree_counts_a_repeated_child_digest_once() {
    let kid = [7u8; 48];
    let ctx = vec![
        dir(&[1; 48], b"root", b""),
        dir(&kid, b"a", &[1; 48]),
        dir(&kid, b"a", &[1; 48]),
    ];
    let out = update_tree(&[1; 48], ctx).unwrap();
    assert_eq!(
        out[0].hash,
        metadata_hash(&cat(&[&metadata_hash(b"root"), &kid]))
    );
}

#[test]
fn update_tree_points_the_children_at_the_new_digest() {
    let ctx = vec![
        dir(&[1; 48], b"root", b""),
        dir(&[2; 48], b"a", &[1; 48]),
        file(&[3; 48], b"f", &[1; 48], b"x"),
        dir(&[4; 48], b"elsewhere", &[9; 48]),
    ];
    let out = update_tree(&[1; 48], ctx).unwrap();
    let root = out[0].hash.clone();
    assert_ne!(root, vec![1u8; 48]);
    assert_eq!(out[1].parent_hash, root);
    assert_eq!(out[2].parent_hash, root);
    assert_eq!(out[3].parent_hash, vec![9u8; 48]);
    assert_eq!(out[1].hash, vec![2u8; 48]);
    assert_eq!(out[2].hash, vec![3u8; 48]);
}

#[test]
fn update_tree_walks_up_to_the_root() {
    // root <- docs <- leaf ; start at docs
    let ctx = vec![
        file(&[3; 48], b"leaf", &[2; 48], b"x"),
        dir(&[2; 48], b"docs", &[1; 48]),
        dir(&[1; 48], b"root", b""),
        dir(&[5; 48], b"other", &[1; 48]),
    ];
    let out = update_tree(&[2; 48], ctx).unwrap();
    let docs = metadata_hash(&cat(&[&metadata_hash(b"docs"), &[3; 48]]));
    assert_eq!(out[1].hash, docs);
    assert_eq!(out[0].parent_hash, docs);
    let mut kids = vec![docs.clone(), vec![5u8; 48]];
    kids.sort();
    let root = dir_hash(&metadata_hash(b"root"), &kids);
    assert_eq!(out[2].hash, root);
    assert_eq!(out[1].parent_hash, root);
    assert_eq!(out[3].parent_hash, root);
    assert_eq!(out[2].parent_hash, Vec::<u8>::new());
}

#[test]
fn update_tree_started_at_a_file_goes_on_to_its_parent() {
    let ctx = vec![
        dir(&[1; 48], b"root", b""),
        file(&[3; 48], b"leaf", &[1; 48], b"x"),
    ];
    let out = update_tree(&[3; 48], ctx).unwrap();
    let leaf = leaf_hash(&metadata_hash(b"leaf"), &metadata_hash(b"x"));
    assert_eq!(out[1].hash, leaf);
    // the file's own parent pointer is not touched by its own step
    assert_eq!(
        out[0].hash,
        metadata_hash(&cat(&[&metadata_hash(b"root"), &leaf]))
    );
    assert_eq!(out[1].parent_hash, out[0].hash);
}

#[test]
fn update_tree_reports_a_cycle_as_inconsistent() {
    // a node that names itself as its parent never reaches a root
    let ctx = vec![dir(&[1; 48], b"loop", &[1; 48])];
    assert_eq!(update_tree(&[1; 48], ctx), Err(TreeError::InconsistentTree));
    let two = vec![dir(&[1; 48], b"a", &[2; 48]), dir(&[2; 48], b"b", &[1; 48])];
    assert_eq!(update_tree(&[1; 48], two), Err(TreeError::InconsistentTree));
}

#[test]
fn update_tree_keeps_every_position_and_content() {
    let ctx = vec![
        file(&[3; 48], b"leaf", &[2; 48], b"x"),
        dir(&[2; 48], b"docs", &[1; 48]),
        dir(&[1; 48], b"root", b""),
    ];
    let before = duplicate_all(&ctx);
    let out = update_tree(&[2; 48], ctx).unwrap();
    assert_eq!(out.len(), before.len());
    for i in 0..out.len() {
        assert_eq!(out[i].metadata, before[i].metadata);
        assert_eq!(out[i].kind, before[i].kind);
        assert_eq!(out[i].metadata_hash, before[i].metadata_hash);
        assert_eq!(out[i].data_hash, before[i].data_hash);
    }
}

#[test]
fn update_tree_takes_the_first_of_two_nodes_with_the_start_digest() {
    // two nodes that share a digest: a context that no store keyed by digest
    // hands out
    let ctx = vec![
        dir(&[1; 48], b"first", b""),
        dir(&[1; 48], b"second", &[8; 48]),
    ];
    let out = update_tree(&[1; 48], ctx).unwrap();
    assert_eq!(out[0].hash, metadata_hash(&metadata_hash(b"first")));
    assert_eq!(out[1].hash, vec![1u8; 48]);
}

#[test]
fn find_gives_the_first_position() {
    let ctx = vec![
        dir(&[1; 48], b"a", b""),
        dir(&[2; 48], b"b", &[1; 48]),
        dir(&[2; 48], b"c", &[1; 48]),
    ];
    assert_eq!(find(&ctx, &[2; 48]), Some(1));
    assert_eq!(find(&ctx, &[1; 48]), Some(0));
    assert_eq!(find(&ctx, &[3; 48]), None);
    assert_eq!(find(&ctx, b""), None);
}

#[test]
fn children_of_gives_the_digests_ascending_and_once() {
    let ctx = vec![
        dir(&[9; 48], b"a", &[1; 48]),
        dir(&[1; 48], b"root", b""),
        dir(&[4; 48], b"b", &[1; 48]),
        dir(&[9; 48], b"c", &[1; 48]),
        dir(&[5; 48], b"d", &[2; 48]),
    ];
    assert_eq!(children_of(&ctx, &[1; 48]), vec![vec![4u8; 48], vec![9u8; 48]]);
    assert_eq!(children_of(&ctx, &[7; 48]), Vec::<Vec<u8>>::new());
    // the root is the child of the empty digest
    assert_eq!(children_of(&ctx, b""), vec![vec![1u8; 48]]);
}

#[test]
fn recompute_follows_the_kind() {
    let ctx = vec![
        dir(&[1; 48], b"root", b""),
        file(&[3; 48], b"leaf", &[1; 48], b"x"),
    ];
    assert_eq!(
        recompute(&ctx, 0),
        metadata_hash(&cat(&[&metadata_hash(b"root"), &[3; 48]]))
    );
    assert_eq!(
        recompute(&ctx, 1),
        metadata_hash(&cat(&[&metadata_hash(b"leaf"), &metadata_hash(b"x")]))
    );
}

#[test]
fn relink_moves_only_the_children_of_a_directory() {
    let mut ctx = vec![
        dir(&[1; 48], b"root", b""),
        file(&[3; 48], b"leaf", &[1; 48], b"x"),
        dir(&[4; 48], b"odd", &[3; 48]),
    ];
    relink(&mut ctx, 0, &[7; 48]);
    assert_eq!(ctx[0].hash, vec![7u8; 48]);
    assert_eq!(ctx[1].parent_hash, vec![7u8; 48]);
    assert_eq!(ctx[2].parent_hash, vec![3u8; 48]);
    // a file has no children: what names it as parent stays as it is
    relink(&mut ctx, 1, &[8; 48]);
    assert_eq!(ctx[1].hash, vec![8u8; 48]);
    assert_eq!(ctx[2].parent_hash, vec![3u8; 48]);
}

fn sorted_by_metadata(mut nodes: Vec<Node>) -> Vec<Node> {
    nodes.sort_by(|x, y| x.metadata.cmp(&y.metadata));
    nodes
}

#[test]
fn update_tree_goes_the_way_that_the_context_names_when_handed_in() {
    // c <- p <- g, where the digest that c is about to get is the one that g
    // has: the parent of p is still g, wherever the nodes stand
    let z = metadata_hash(&metadata_hash(b"c"));
    let c = dir(&[0; 48], b"c", &[2; 48]);
    let p = dir(&[2; 48], b"p", &z);
    let g = dir(&z, b"g", b"");
    let np = metadata_hash(&cat(&[&metadata_hash(b"p"), &z]));
    let ng = metadata_hash(&cat(&[&metadata_hash(b"g"), &np]));
    let expected = vec![dir(&z, b"c", &np), dir(&ng, b"g", b""), dir(&np, b"p", &ng)];

    let one = update_tree(&[0; 48], vec![c.clone(), p.clone(), g.clone()]).unwrap();
    assert_eq!(one[0].hash, z);
    assert_eq!(one[1].hash, np);
    assert_eq!(one[2].hash, ng);
    let two = update_tree(&[0; 48], vec![g.clone(), p.clone(), c.clone()]).unwrap();
    assert_eq!(two[2].hash, z);
    assert_eq!(sorted_by_metadata(one), expected);
    assert_eq!(sorted_by_metadata(two), expected);
}

#[test]
fn update_tree_gives_the_same_nodes_for_every_order_of_the_context() {
    let nodes = vec![
        dir(&[1; 48], b"root", b""),
        dir(&[2; 48], b"docs", &[1; 48]),
        file(&[3; 48], b"leaf", &[2; 48], b"x"),
        dir(&[4; 48], b"other", &[1; 48]),
    ];
    let orders: [[usize; 4]; 5] = [[0, 1, 2, 3], [3, 2, 1, 0], [1, 0, 3, 2], [2, 3, 0, 1], [1, 3, 0, 2]];
    let first = sorted_by_metadata(update_tree(&[2; 48], nodes.clone()).unwrap());
    for order in orders {
        let ctx: Vec<Node> = order.iter().map(|&i| nodes[i].clone()).collect();
        assert_eq!(sorted_by_metadata(update_tree(&[2; 48], ctx).unwrap()), first);
    }
}

#[test]
fn update_tree_writes_digests_of_48_bytes_and_keeps_the_others() {
    let ctx = vec![
        dir(&[1; 3], b"root", b""),
        dir(&[2; 5], b"docs", &[1; 3]),
        dir(&[4; 7], b"other", &[1; 3]),
        dir(&[5; 9], b"below", &[4; 7]),
    ];
    let out = update_tree(&[2; 5], ctx).unwrap();
    assert_eq!(out[0].hash.len(), 48);
    assert_eq!(out[1].hash.len(), 48);
    assert_eq!(out[1].parent_hash.len(), 48);
    assert_eq!(out[2].hash, vec![4u8; 7]);
    assert_eq!(out[2].parent_hash.len(), 48);
    assert_eq!(out[3].hash, vec![5u8; 9]);
    assert_eq!(out[3].parent_hash, vec![4u8; 7]);
    assert!(out[0].parent_hash.is_empty());
}

#[test]
fn chain_of_lists_the_node_and_its_ancestors() {
    let ctx = vec![
        dir(&[1; 48], b"root", b""),
        dir(&[4; 48], b"other", &[1; 48]),
        file(&[3; 48], b"leaf", &[2; 48], b"x"),
        dir(&[2; 48], b"docs", &[1; 48]),
    ];
    assert_eq!(chain_of(&ctx, 2), Some(vec![2, 3, 0]));
    assert_eq!(chain_of(&ctx, 1), Some(vec![1, 0]));
    assert_eq!(chain_of(&ctx, 0), Some(vec![0]));
    let looped = vec![dir(&[1; 48], b"a", &[2; 48]), dir(&[2; 48], b"b", &[1; 48])];
    assert_eq!(chain_of(&looped, 0), None);
    // a parent that is not there ends the chain
    let torn = vec![dir(&[1; 48], b"a", &[9; 48])];
    assert_eq!(chain_of(&torn, 0), Some(vec![0]));
}
