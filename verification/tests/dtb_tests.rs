use scraps::dtb::{lookup_dtb_entry_node, lookup_dtb_index_entry, path_components, DtbIndex, DtbIndexItem, DtbNode};

fn name(s: &str) -> Option<Vec<u8>> {
    Some(s.as_bytes().to_vec())
}

#[test]
fn path_components_split_at_slashes() {
    assert_eq!(path_components("/soc/uart@10000000"), vec![b"soc".to_vec(), b"uart@10000000".to_vec()]);
    assert_eq!(path_components("//chosen"), vec![b"chosen".to_vec()]);
    assert_eq!(path_components("/"), vec![Vec::<u8>::new()]);
    assert_eq!(path_components("a//b/"), vec![b"a".to_vec(), Vec::new(), b"b".to_vec(), Vec::new()]);
}

fn sample_index() -> DtbIndex {
    DtbIndex {
        nodes: vec![
            DtbNode { name: name(""), children: vec![1, 2], props: vec![name("model")] },
            DtbNode { name: name("chosen"), children: vec![], props: vec![name("bootargs"), name("stdout-path")] },
            DtbNode { name: name("soc"), children: vec![3], props: vec![] },
            DtbNode { name: name("uart"), children: vec![], props: vec![name("compatible"), name("reg")] },
        ],
    }
}

#[test]
fn index_lookup_finds_nodes_and_properties() {
    let t = sample_index();
    assert_eq!(lookup_dtb_index_entry(&t, "/chosen"), Some(DtbIndexItem::Node(1)));
    assert_eq!(lookup_dtb_index_entry(&t, "/soc/uart"), Some(DtbIndexItem::Node(3)));
    assert_eq!(lookup_dtb_index_entry(&t, "/chosen/stdout-path"), Some(DtbIndexItem::Prop(1, 1)));
    assert_eq!(lookup_dtb_index_entry(&t, "/soc/uart/reg"), Some(DtbIndexItem::Prop(3, 1)));
    assert_eq!(lookup_dtb_index_entry(&t, "/model"), Some(DtbIndexItem::Prop(0, 0)));
}

#[test]
fn index_lookup_misses() {
    let t = sample_index();
    assert_eq!(lookup_dtb_index_entry(&t, "/memory"), None);
    assert_eq!(lookup_dtb_index_entry(&t, "/soc/serial"), None);
}

#[test]
fn node_lookup_follows_the_chain_of_children() {
    let t = sample_index();
    assert_eq!(lookup_dtb_entry_node(&t, "/soc/uart"), Some(3));
    assert_eq!(lookup_dtb_entry_node(&t, "soc/uart"), Some(3));
    assert_eq!(lookup_dtb_entry_node(&t, "/chosen"), Some(1));
    assert_eq!(lookup_dtb_entry_node(&t, "/"), Some(0));
    assert_eq!(lookup_dtb_entry_node(&t, "/memory"), None);
    // a property is no node
    assert_eq!(lookup_dtb_entry_node(&t, "/chosen/bootargs"), None);
}

#[test]
fn node_lookup_respects_the_tree_shape() {
    // root > a > x, root > b: b is not under a
    let t = DtbIndex {
        nodes: vec![
            DtbNode { name: name(""), children: vec![1, 3], props: vec![] },
            DtbNode { name: name("a"), children: vec![2], props: vec![] },
            DtbNode { name: name("x"), children: vec![], props: vec![] },
            DtbNode { name: name("b"), children: vec![], props: vec![] },
        ],
    };
    assert_eq!(lookup_dtb_entry_node(&t, "/a/b"), None);
    assert_eq!(lookup_dtb_entry_node(&t, "/a/x"), Some(2));
    assert_eq!(lookup_dtb_entry_node(&t, "/b"), Some(3));
}

#[test]
fn node_lookup_skips_unreadable_names() {
    let t = DtbIndex {
        nodes: vec![
            DtbNode { name: name(""), children: vec![1, 2], props: vec![] },
            DtbNode { name: None, children: vec![], props: vec![] },
            DtbNode { name: name("soc"), children: vec![], props: vec![] },
        ],
    };
    assert_eq!(lookup_dtb_entry_node(&t, "/soc"), Some(2));
}

#[test]
fn index_lookup_does_not_take_a_property_midway() {
    // root > a, where a has a property named a
    let t = DtbIndex {
        nodes: vec![
            DtbNode { name: name(""), children: vec![1], props: vec![] },
            DtbNode { name: name("a"), children: vec![], props: vec![name("a")] },
        ],
    };
    assert_eq!(lookup_dtb_index_entry(&t, "/a/b"), None);
    assert_eq!(lookup_dtb_index_entry(&t, "/a/a"), Some(DtbIndexItem::Prop(1, 0)));
    assert_eq!(lookup_dtb_index_entry(&t, "/a"), Some(DtbIndexItem::Node(1)));
    // nothing is named with the empty name of `/`
    assert_eq!(lookup_dtb_index_entry(&t, "/"), None);
    assert_eq!(lookup_dtb_index_entry(&t, ""), None);
}

#[test]
fn root_path_needs_the_root_empty_name() {
    let t = DtbIndex { nodes: vec![DtbNode { name: name("x"), children: vec![], props: vec![] }] };
    assert_eq!(lookup_dtb_entry_node(&t, "/"), None);
    let u = DtbIndex { nodes: vec![DtbNode { name: None, children: vec![], props: vec![] }] };
    assert_eq!(lookup_dtb_entry_node(&u, "/"), None);
}
