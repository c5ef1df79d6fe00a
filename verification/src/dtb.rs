//! Looking up device-tree entries by path.
//!
//! The lookups read a device tree only through the names of its nodes and properties and
//! which nodes are children of which; these types hold exactly that. A name is `None` where the tree
//! could not give it (an invalid string or a parse error).
use vstd::prelude::*;
use vstd::string::StringSliceAdditionalSpecFns;

verus! {

/// The byte of `/`, the separator of path components.
pub const SLASH: u8 = 0x2f;

/// A node of an indexed device tree.
pub struct DtbNode {
    /// The node's name.
    pub name: Option<Vec<u8>>,
    /// The indexes of the node's children, in order.
    pub children: Vec<usize>,
    /// The names of the node's properties, in order.
    pub props: Vec<Option<Vec<u8>>>,
}

/// An indexed device tree: its nodes, the root first.
pub struct DtbIndex {
    pub nodes: Vec<DtbNode>,
}

/// What an index lookup finds: a node, or property `p` of node `n`.
#[derive(Clone, Copy, PartialEq, Eq, Structural, Debug)]
pub enum DtbIndexItem {
    Node(usize),
    Prop(usize, usize),
}

/// A path with its leading slashes removed.
pub open spec fn trim_leading_slashes(p: Seq<u8>) -> Seq<u8>
    decreases p.len(),
{
    if p.len() > 0 && p[0] == SLASH {
        trim_leading_slashes(p.drop_first())
    } else {
        p
    }
}

/// The components of `t` split at each slash: the empty text has one empty component; a
/// slash starts a new empty component; any other byte extends the last component.
pub open spec fn split_slash(t: Seq<u8>) -> Seq<Seq<u8>>
    decreases t.len(),
{
    if t.len() == 0 {
        seq![Seq::<u8>::empty()]
    } else {
        let s = split_slash(t.drop_last());
        if t.last() == SLASH {
            s.push(Seq::<u8>::empty())
        } else {
            s.update(s.len() - 1, s.last().push(t.last()))
        }
    }
}

/// The components of a path, as the lookups use them.
pub open spec fn path_components_spec(path: Seq<u8>) -> Seq<Seq<u8>> {
    split_slash(trim_leading_slashes(path))
}

/// A split has at least one component.
proof fn lemma_split_nonempty(t: Seq<u8>)
    ensures
        split_slash(t).len() >= 1,
    decreases t.len(),
{
    if t.len() > 0 {
        lemma_split_nonempty(t.drop_last());
    }
}

/// The values of a sequence of byte vectors.
pub open spec fn bytes_views(v: Seq<Vec<u8>>) -> Seq<Seq<u8>> {
    v.map_values(|b: Vec<u8>| b@)
}

/// Whether two byte vectors hold the same bytes.
fn bytes_eq(a: &Vec<u8>, b: &Vec<u8>) -> (r: bool)
    ensures
        r == (a@ == b@),
{
    if a.len() != b.len() {
        return false;
    }
    let mut i: usize = 0;
    while i < a.len()
        invariant
            a@.len() == b@.len(),
            i <= a@.len(),
            forall|j: int| 0 <= j < i ==> a@[j] == b@[j],
        decreases a.len() - i,
    {
        if a[i] != b[i] {
            return false;
        }
        i = i + 1;
    }
    assert(a@ =~= b@);
    true
}

/// The components of a path: leading slashes removed, then split at each slash.
pub fn path_components(path: &str) -> (r: Vec<Vec<u8>>)
    ensures
        bytes_views(r@) == path_components_spec(path.spec_bytes()),
{
    let bytes = path.as_bytes();
    let ghost p = bytes@;
    let len = bytes.len();
    let mut start: usize = 0;
    proof {
        assert(p.subrange(0, len as int) =~= p);
    }
    while start < len && bytes[start] == SLASH
        invariant
            start <= len,
            len == p.len(),
            bytes@ == p,
            trim_leading_slashes(p.subrange(start as int, len as int)) == trim_leading_slashes(p),
        decreases len - start,
    {
        assert(p.subrange(start as int, len as int).drop_first() =~= p.subrange(start + 1, len as int));
        start = start + 1;
    }
    let ghost u = p.subrange(start as int, len as int);
    assert(trim_leading_slashes(u) == u);
    let mut comps: Vec<Vec<u8>> = Vec::new();
    let mut cur: Vec<u8> = Vec::new();
    let mut j = start;
    proof {
        assert(u.subrange(0, 0) =~= Seq::<u8>::empty());
        assert(bytes_views(comps@).push(cur@) =~= split_slash(u.subrange(0, 0)));
    }
    while j < len
        invariant
            start <= j <= len,
            len == p.len(),
            bytes@ == p,
            u == p.subrange(start as int, len as int),
            bytes_views(comps@).push(cur@) == split_slash(u.subrange(0, j - start)),
        decreases len - j,
    {
        let ghost k = j - start;
        assert(u.subrange(0, k + 1).drop_last() =~= u.subrange(0, k));
        assert(u.subrange(0, k + 1).last() == bytes@[j as int]);
        if bytes[j] == SLASH {
            let done = cur;
            comps.push(done);
            cur = Vec::new();
            assert(bytes_views(comps@).push(cur@) =~= split_slash(u.subrange(0, k)).push(
                Seq::<u8>::empty(),
            ));
        } else {
            let ghost before = bytes_views(comps@).push(cur@);
            cur.push(bytes[j]);
            assert(bytes_views(comps@).push(cur@) =~= before.update(
                before.len() - 1,
                before.last().push(bytes@[j as int]),
            ));
        }
        j = j + 1;
    }
    comps.push(cur);
    assert(u.subrange(0, len - start) =~= u);
    assert(bytes_views(comps@) =~= split_slash(u));
    comps
}

/// Every child index of every node names a node.
pub open spec fn dtb_wf(t: &DtbIndex) -> bool {
    forall|n: int, c: int|
        0 <= n < t.nodes@.len() && 0 <= c < t.nodes@[n].children@.len() ==> #[trigger] t.nodes@[n].children@[c]
            < t.nodes@.len()
}

/// The name of node `n`.
pub open spec fn node_name(t: &DtbIndex, n: int) -> Option<Seq<u8>> {
    match t.nodes@[n].name {
        Some(b) => Some(b@),
        None => None,
    }
}

/// The name of property `p` of node `n`.
pub open spec fn prop_name(t: &DtbIndex, n: int, p: int) -> Option<Seq<u8>> {
    match t.nodes@[n].props@[p] {
        Some(b) => Some(b@),
        None => None,
    }
}

/// The first child of node `n`, among its children from position `k` on, named `comp`.
/// (Sibling names are unique in a device tree; where they are not, the first one counts.)
pub open spec fn child_named(t: &DtbIndex, n: int, comp: Seq<u8>, k: int) -> Option<int>
    decreases t.nodes@[n].children@.len() - k,
{
    if k < 0 || k >= t.nodes@[n].children@.len() {
        None
    } else if node_name(t, t.nodes@[n].children@[k] as int) == Some(comp) {
        Some(t.nodes@[n].children@[k] as int)
    } else {
        child_named(t, n, comp, k + 1)
    }
}

/// The first property of node `n`, from position `k` on, named `comp`.
pub open spec fn prop_named(t: &DtbIndex, n: int, comp: Seq<u8>, k: int) -> Option<int>
    decreases t.nodes@[n].props@.len() - k,
{
    if k < 0 || k >= t.nodes@[n].props@.len() {
        None
    } else if prop_name(t, n, k) == Some(comp) {
        Some(k)
    } else {
        prop_named(t, n, comp, k + 1)
    }
}

/// The node at the end of the chain of children from node `n` that components
/// `comps[j .. end]` name, one child per component; `None` where a component names no child.
pub open spec fn chain(t: &DtbIndex, n: int, comps: Seq<Seq<u8>>, j: int, end: int) -> Option<int>
    decreases end - j,
{
    if j >= end {
        Some(n)
    } else {
        match child_named(t, n, comps[j], 0) {
            Some(c) => chain(t, c, comps, j + 1, end),
            None => None,
        }
    }
}

/// `p` is a walk down the tree: `p[i + 1]` is a child of `p[i]` named `comps[i]`, for every
/// component.
pub open spec fn is_child_path(t: &DtbIndex, p: Seq<int>, comps: Seq<Seq<u8>>) -> bool {
    &&& p.len() == comps.len() + 1
    &&& forall|i: int|
        0 <= i < comps.len() ==> {
            &&& 0 <= p[i] < t.nodes@.len()
            &&& t.nodes@[p[i]].children@.contains(#[trigger] p[i + 1] as usize)
            &&& node_name(t, p[i + 1]) == Some(comps[i])
        }
}

/// The child that [`child_named`] finds is a child of `n` with that name.
proof fn lemma_child_named(t: &DtbIndex, n: int, comp: Seq<u8>, k: int)
    requires
        dtb_wf(t),
        0 <= n < t.nodes@.len(),
        child_named(t, n, comp, k) is Some,
    ensures
        0 <= child_named(t, n, comp, k).unwrap() < t.nodes@.len(),
        t.nodes@[n].children@.contains(child_named(t, n, comp, k).unwrap() as usize),
        node_name(t, child_named(t, n, comp, k).unwrap()) == Some(comp),
    decreases t.nodes@[n].children@.len() - k,
{
    if node_name(t, t.nodes@[n].children@[k] as int) == Some(comp) {
        assert(t.nodes@[n].children@[k] < t.nodes@.len());
        assert(t.nodes@[n].children@[k] == child_named(t, n, comp, k).unwrap() as usize);
    } else {
        lemma_child_named(t, n, comp, k + 1);
    }
}

/// The property that [`prop_named`] finds has that name.
proof fn lemma_prop_named(t: &DtbIndex, n: int, comp: Seq<u8>, k: int)
    requires
        prop_named(t, n, comp, k) is Some,
    ensures
        prop_name(t, n, prop_named(t, n, comp, k).unwrap()) == Some(comp),
        0 <= prop_named(t, n, comp, k).unwrap() < t.nodes@[n].props@.len(),
    decreases t.nodes@[n].props@.len() - k,
{
    if prop_name(t, n, k) != Some(comp) {
        lemma_prop_named(t, n, comp, k + 1);
    }
}

/// The node that a chain reaches is at the end of a walk down the tree, one child per
/// component, from where the chain starts.
proof fn lemma_chain_path(t: &DtbIndex, n: int, comps: Seq<Seq<u8>>, j: int, end: int) -> (p: Seq<int>)
    requires
        dtb_wf(t),
        0 <= n < t.nodes@.len(),
        0 <= j <= end <= comps.len(),
        chain(t, n, comps, j, end) is Some,
    ensures
        p[0] == n,
        p.last() == chain(t, n, comps, j, end).unwrap(),
        is_child_path(t, p, comps.subrange(j, end)),
        0 <= p.last() < t.nodes@.len(),
    decreases end - j,
{
    if j >= end {
        seq![n]
    } else {
        let c = child_named(t, n, comps[j], 0).unwrap();
        lemma_child_named(t, n, comps[j], 0);
        let rest = lemma_chain_path(t, c, comps, j + 1, end);
        let p = seq![n] + rest;
        assert forall|i: int| 0 <= i < comps.subrange(j, end).len() implies {
            &&& 0 <= p[i] < t.nodes@.len()
            &&& t.nodes@[p[i]].children@.contains(#[trigger] p[i + 1] as usize)
            &&& node_name(t, p[i + 1]) == Some(comps.subrange(j, end)[i])
        } by {
            if i > 0 {
                let k = i - 1;
                assert(p[i] == rest[k]);
                assert(p[i + 1] == rest[k + 1]);
                assert(0 <= k < comps.subrange(j + 1, end).len());
                assert(t.nodes@[rest[k]].children@.contains(rest[k + 1] as usize));
                assert(comps.subrange(j + 1, end)[k] == comps.subrange(j, end)[i]);
            } else {
                assert(p[0] == n && p[1] == rest[0] && rest[0] == c);
                assert(comps.subrange(j, end)[0] == comps[j]);
            }
        }
        p
    }
}

/// A node found by path is named by the path's last component and, but for the root path `/`,
/// is reached from the root by one child step per component, each child named by its
/// component in turn.
pub proof fn law_node_lookup_follows_path(t: &DtbIndex, comps: Seq<Seq<u8>>)
    requires
        dtb_wf(t),
        t.nodes@.len() > 0,
        comps.len() > 0,
        node_lookup_spec(t, comps) is Some,
    ensures
        ({
            let n = node_lookup_spec(t, comps).unwrap();
            &&& 0 <= n < t.nodes@.len()
            &&& node_name(t, n) == Some(comps.last())
            &&& is_root_path(comps) || exists|p: Seq<int>|
                is_child_path(t, p, comps) && p[0] == 0 && p.last() == n
        }),
{
    if is_root_path(comps) {
        assert(comps.last() =~= Seq::<u8>::empty());
    } else {
        let p = lemma_chain_path(t, 0, comps, 0, comps.len() as int);
        assert(comps.subrange(0, comps.len() as int) =~= comps);
        let i = comps.len() - 1;
        assert(p[i + 1] == p.last());
        assert(node_name(t, p[i + 1]) == Some(comps[i]));
    }
}

/// An entry found by path is named by the path's last component: a node is reached from the
/// root by one child step per component; a property belongs to the node reached by one child
/// step per component but the last. (The bounds on the lengths are those that every `Vec`
/// meets.)
pub proof fn law_index_lookup_follows_path(t: &DtbIndex, comps: Seq<Seq<u8>>)
    requires
        dtb_wf(t),
        0 < t.nodes@.len() <= usize::MAX,
        forall|n: int| 0 <= n < t.nodes@.len() ==> #[trigger] t.nodes@[n].props@.len() <= usize::MAX,
    ensures
        index_lookup_spec(t, comps) matches Some(DtbIndexItem::Node(c)) ==> {
            &&& c < t.nodes@.len()
            &&& node_name(t, c as int) == Some(comps.last())
            &&& exists|p: Seq<int>| is_child_path(t, p, comps) && p[0] == 0 && p.last() == c as int
        },
        index_lookup_spec(t, comps) matches Some(DtbIndexItem::Prop(m, q)) ==> {
            &&& m < t.nodes@.len()
            &&& q < t.nodes@[m as int].props@.len()
            &&& prop_name(t, m as int, q as int) == Some(comps.last())
            &&& exists|p: Seq<int>|
                is_child_path(t, p, comps.drop_last()) && p[0] == 0 && p.last() == m as int
        },
{
    if comps.len() > 0 {
        let last = comps.len() - 1;
        if chain(t, 0, comps, 0, last) is Some {
            let m = chain(t, 0, comps, 0, last).unwrap();
            let p = lemma_chain_path(t, 0, comps, 0, last);
            assert(comps.subrange(0, last) =~= comps.drop_last());
            if child_named(t, m, comps[last], 0) is Some {
                let c = child_named(t, m, comps[last], 0).unwrap();
                lemma_child_named(t, m, comps[last], 0);
                let p2 = p.push(c);
                assert forall|i: int| 0 <= i < comps.len() implies {
                    &&& 0 <= p2[i] < t.nodes@.len()
                    &&& t.nodes@[p2[i]].children@.contains(#[trigger] p2[i + 1] as usize)
                    &&& node_name(t, p2[i + 1]) == Some(comps[i])
                } by {
                    if i < last {
                        assert(p2[i] == p[i] && p2[i + 1] == p[i + 1]);
                        assert(comps.drop_last()[i] == comps[i]);
                    } else {
                        assert(p2[i] == p.last());
                    }
                }
                assert(is_child_path(t, p2, comps));
                assert(p2[0] == 0 && p2.last() == c);
            } else if prop_named(t, m, comps[last], 0) is Some {
                lemma_prop_named(t, m, comps[last], 0);
                assert(is_child_path(t, p, comps.drop_last()));
                assert(p[0] == 0 && p.last() == m);
            }
        }
    }
}

/// Whether the components are those of the root path `/`.
pub open spec fn is_root_path(comps: Seq<Seq<u8>>) -> bool {
    comps.len() == 1 && comps[0].len() == 0
}

/// The node that a path names: for `/`, the root where its name is the empty name it has in
/// a device tree (nothing otherwise); else the end of the chain of children from the root
/// that its components name.
pub open spec fn node_lookup_spec(t: &DtbIndex, comps: Seq<Seq<u8>>) -> Option<int> {
    if is_root_path(comps) {
        if node_name(t, 0) == Some(Seq::<u8>::empty()) {
            Some(0)
        } else {
            None
        }
    } else {
        chain(t, 0, comps, 0, comps.len() as int)
    }
}

/// The entry that a path names in an indexed tree: where all components but the last name a
/// chain of children from the root to node `m`, the child of `m` that the last component
/// names, or failing that the property of `m` it names; otherwise nothing. (The path `/` has
/// one empty component, which names no entry where no child or property has an empty name.)
pub open spec fn index_lookup_spec(t: &DtbIndex, comps: Seq<Seq<u8>>) -> Option<DtbIndexItem> {
    if comps.len() == 0 {
        None
    } else {
        let last = comps.len() - 1;
        match chain(t, 0, comps, 0, last) {
            None => None,
            Some(m) => match child_named(t, m, comps[last], 0) {
                Some(c) => Some(DtbIndexItem::Node(c as usize)),
                None => match prop_named(t, m, comps[last], 0) {
                    Some(p) => Some(DtbIndexItem::Prop(m as usize, p as usize)),
                    None => None,
                },
            },
        }
    }
}

/// The first child of node `n` named `comp`.
fn find_child(dtb: &DtbIndex, n: usize, comp: &Vec<u8>) -> (r: Option<usize>)
    requires
        dtb_wf(dtb),
        n < dtb.nodes@.len(),
    ensures
        match r {
            Some(c) => child_named(dtb, n as int, comp@, 0) == Some(c as int) && c < dtb.nodes@.len(),
            None => child_named(dtb, n as int, comp@, 0) is None,
        },
{
    let len = dtb.nodes[n].children.len();
    let mut k: usize = 0;
    while k < len
        invariant
            dtb_wf(dtb),
            n < dtb.nodes@.len(),
            len == dtb.nodes@[n as int].children@.len(),
            k <= len,
            child_named(dtb, n as int, comp@, k as int) == child_named(dtb, n as int, comp@, 0),
        decreases len - k,
    {
        let c = dtb.nodes[n].children[k];
        assert(dtb.nodes@[n as int].children@[k as int] < dtb.nodes@.len());
        let named = match &dtb.nodes[c].name {
            Some(name) => bytes_eq(name, comp),
            None => false,
        };
        if named {
            return Some(c);
        }
        k = k + 1;
    }
    None
}

/// The first property of node `n` named `comp`.
fn find_prop(dtb: &DtbIndex, n: usize, comp: &Vec<u8>) -> (r: Option<usize>)
    requires
        n < dtb.nodes@.len(),
    ensures
        match r {
            Some(p) => prop_named(dtb, n as int, comp@, 0) == Some(p as int),
            None => prop_named(dtb, n as int, comp@, 0) is None,
        },
{
    let len = dtb.nodes[n].props.len();
    let mut k: usize = 0;
    while k < len
        invariant
            n < dtb.nodes@.len(),
            len == dtb.nodes@[n as int].props@.len(),
            k <= len,
            prop_named(dtb, n as int, comp@, k as int) == prop_named(dtb, n as int, comp@, 0),
        decreases len - k,
    {
        let named = match &dtb.nodes[n].props[k] {
            Some(name) => bytes_eq(name, comp),
            None => false,
        };
        if named {
            return Some(k);
        }
        k = k + 1;
    }
    None
}

/// Follows the chain of children from the root that components `comps[0 .. end]` name.
fn walk_chain(dtb: &DtbIndex, comps: &Vec<Vec<u8>>, end: usize) -> (r: Option<usize>)
    requires
        dtb_wf(dtb),
        dtb.nodes@.len() > 0,
        end <= comps@.len(),
    ensures
        match r {
            Some(n) => chain(dtb, 0, bytes_views(comps@), 0, end as int) == Some(n as int) && n
                < dtb.nodes@.len(),
            None => chain(dtb, 0, bytes_views(comps@), 0, end as int) is None,
        },
{
    let ghost cs = bytes_views(comps@);
    let mut n: usize = 0;
    let mut j: usize = 0;
    while j < end
        invariant
            dtb_wf(dtb),
            n < dtb.nodes@.len(),
            end <= comps@.len(),
            j <= end,
            cs == bytes_views(comps@),
            chain(dtb, n as int, cs, j as int, end as int) == chain(dtb, 0, cs, 0, end as int),
        decreases end - j,
    {
        assert(cs[j as int] == comps@[j as int]@);
        match find_child(dtb, n, &comps[j]) {
            Some(c) => {
                n = c;
            },
            None => {
                return None;
            },
        }
        j = j + 1;
    }
    Some(n)
}

/// Whether the components are those of the root path `/`.
fn root_path(comps: &Vec<Vec<u8>>) -> (r: bool)
    ensures
        r == is_root_path(bytes_views(comps@)),
{
    comps.len() == 1 && comps[0].len() == 0
}

/// Looks up a node by path: the root for `/` (where its name is empty), else the node at the
/// end of the chain of children from the root (node 0) that the path's components name.
/// Only supports node leafs and not prop leafs.
pub fn lookup_dtb_entry_node(dtb: &DtbIndex, path: &str) -> (r: Option<usize>)
    requires
        dtb_wf(dtb),
        dtb.nodes@.len() > 0,
    ensures
        match r {
            Some(n) => node_lookup_spec(dtb, path_components_spec(path.spec_bytes())) == Some(n as int),
            None => node_lookup_spec(dtb, path_components_spec(path.spec_bytes())) is None,
        },
        ({
            let comps = path_components_spec(path.spec_bytes());
            r matches Some(n) ==> {
                &&& n < dtb.nodes@.len()
                &&& node_name(dtb, n as int) == Some(comps.last())
                &&& is_root_path(comps) || exists|p: Seq<int>|
                    is_child_path(dtb, p, comps) && p[0] == 0 && p.last() == n as int
            }
        }),
{
    let comps = path_components(path);
    let ghost cs = bytes_views(comps@);
    proof {
        lemma_split_nonempty(trim_leading_slashes(path.spec_bytes()));
    }
    if root_path(&comps) {
        proof {
            assert(cs[0] == comps@[0]@);
            assert(cs.last() =~= Seq::<u8>::empty());
        }
        let root_named_empty = match &dtb.nodes[0].name {
            Some(name) => name.len() == 0,
            None => false,
        };
        proof {
            match dtb.nodes@[0].name {
                Some(b) => {
                    if b@.len() == 0 {
                        assert(b@ =~= Seq::<u8>::empty());
                    }
                },
                None => {},
            }
        }
        return if root_named_empty {
            Some(0)
        } else {
            None
        };
    }
    let r = walk_chain(dtb, &comps, comps.len());
    proof {
        if r is Some {
            law_node_lookup_follows_path(dtb, cs);
        }
    }
    r
}

/// Looks up an entry of an indexed tree by path: where all components but the last name a
/// chain of children from the root, the child that the last
/// component names under the node reached, or failing that its property of that name.
pub fn lookup_dtb_index_entry(dtb: &DtbIndex, path: &str) -> (r: Option<DtbIndexItem>)
    requires
        dtb_wf(dtb),
        dtb.nodes@.len() > 0,
    ensures
        r == index_lookup_spec(dtb, path_components_spec(path.spec_bytes())),
        ({
            let comps = path_components_spec(path.spec_bytes());
            &&& r matches Some(DtbIndexItem::Node(c)) ==> node_name(dtb, c as int) == Some(comps.last())
                && exists|p: Seq<int>| is_child_path(dtb, p, comps) && p[0] == 0 && p.last() == c as int
            &&& r matches Some(DtbIndexItem::Prop(m, q)) ==> prop_name(dtb, m as int, q as int) == Some(
                comps.last(),
            ) && exists|p: Seq<int>|
                is_child_path(dtb, p, comps.drop_last()) && p[0] == 0 && p.last() == m as int
        }),
{
    let comps = path_components(path);
    let ghost cs = bytes_views(comps@);
    if comps.len() == 0 {
        return None;
    }
    let last = comps.len() - 1;
    assert(cs[last as int] == comps@[last as int]@);
    match walk_chain(dtb, &comps, last) {
        None => None,
        Some(m) => {
            let ghost p = lemma_chain_path(dtb, 0, cs, 0, last as int);
            proof {
                assert(cs.subrange(0, last as int) =~= cs.drop_last());
            }
            match find_child(dtb, m, &comps[last]) {
                Some(c) => {
                    proof {
                        lemma_child_named(dtb, m as int, cs[last as int], 0);
                        let p2 = p.push(c as int);
                        assert forall|i: int| 0 <= i < cs.len() implies {
                            &&& 0 <= p2[i] < dtb.nodes@.len()
                            &&& dtb.nodes@[p2[i]].children@.contains(#[trigger] p2[i + 1] as usize)
                            &&& node_name(dtb, p2[i + 1]) == Some(cs[i])
                        } by {
                            if i < last {
                                assert(p2[i] == p[i] && p2[i + 1] == p[i + 1]);
                                assert(cs.drop_last()[i] == cs[i]);
                            } else {
                                assert(p2[i] == p.last());
                            }
                        }
                        assert(is_child_path(dtb, p2, cs));
                        assert(p2[0] == 0 && p2.last() == c as int);
                    }
                    Some(DtbIndexItem::Node(c))
                },
                None => match find_prop(dtb, m, &comps[last]) {
                    Some(q) => {
                        proof {
                            lemma_prop_named(dtb, m as int, cs[last as int], 0);
                            assert(is_child_path(dtb, p, cs.drop_last()));
                            assert(p[0] == 0 && p.last() == m as int);
                        }
                        Some(DtbIndexItem::Prop(m, q))
                    },
                    None => None,
                },
            }
        },
    }
}

} // verus!
