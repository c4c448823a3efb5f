//! The depot tree: its nodes, and the children of a directory as `p4 dirs`
//! and `p4 files` list them.

use vstd::prelude::*;
use crate::p4::{string_views, P4Error};
use crate::text::{after_last_slash, chars_le, contains_chars, contains_str, last_segment, str_le,
    lemma_chars_le_antisymmetric, lemma_chars_le_reflexive, lemma_chars_le_total,
    lemma_chars_le_transitive};
use crate::ztag::{parse_ztag, ztag_records, RecordMap};

verus! {

/// Whether a node is a directory or a file.
#[derive(Debug, Clone, Copy, PartialEq, Eq, Structural)]
pub enum NodeType {
    Directory,
    File,
}

/// A node of the depot tree.
#[derive(Debug)]
pub struct TreeNode {
    pub name: String,
    /// The full depot path, such as `//depot/src`.
    pub path: String,
    pub node_type: NodeType,
    /// The children, once they have been fetched.
    pub children: Option<Vec<TreeNode>>,
    pub is_expanded: bool,
}

/// `a` and `b` are the same tree: equal names, paths, kinds and expansion,
/// and the same children, where fetched.
pub open spec fn same_tree(a: TreeNode, b: TreeNode) -> bool
    decreases a,
{
    &&& a.name@ == b.name@
    &&& a.path@ == b.path@
    &&& a.node_type == b.node_type
    &&& a.is_expanded == b.is_expanded
    &&& match a.children {
        None => b.children is None,
        Some(x) => match b.children {
            None => false,
            Some(y) => x@.len() == y@.len() && forall|i: int|
                0 <= i < x@.len() ==> same_tree(#[trigger] x@[i], y@[i]),
        },
    }
}

impl Clone for TreeNode {
    fn clone(&self) -> (r: Self)
        ensures
            same_tree(*self, r),
    {
        self.copy_tree()
    }
}

impl TreeNode {
    /// A copy of the tree rooted at this node.
    fn copy_tree(&self) -> (r: Self)
        ensures
            same_tree(*self, r),
        decreases self,
    {
        broadcast use vstd::std_specs::vec::group_vec_axioms;

        let children = match &self.children {
            None => None,
            Some(x) => {
                let mut y: Vec<TreeNode> = Vec::new();
                let mut i: usize = 0;
                while i < x.len()
                    invariant
                        0 <= i <= x@.len(),
                        y@.len() == i,
                        self.children == Some(*x),
                        forall|j: int| 0 <= j < i ==> same_tree(#[trigger] x@[j], y@[j]),
                    decreases x@.len() - i,
                {
                    proof {
                        let v: Vec<TreeNode> = *x;
                        assert(decreases_to!(v => v[i as int]));
                        assert(decreases_to!(*self => self.children));
                        assert(self.children->0 == v);
                        assert(decreases_to!(self.children => self.children->0));
                        assert(decreases_to!(*self => v[i as int]));
                    }
                    let c = x[i].copy_tree();
                    y.push(c);
                    i = i + 1;
                }
                Some(y)
            },
        };
        TreeNode {
            name: self.name.clone(),
            path: self.path.clone(),
            node_type: self.node_type,
            children,
            is_expanded: self.is_expanded,
        }
    }

    /// A directory node, not yet expanded, whose children are not fetched.
    pub fn new_directory(name: String, path: String) -> (n: Self)
        ensures
            n.name@ == name@,
            n.path@ == path@,
            n.node_type == NodeType::Directory,
            n.children is None,
            !n.is_expanded,
    {
        TreeNode { name, path, node_type: NodeType::Directory, children: None, is_expanded: false }
    }

    /// A file node.
    pub fn new_file(name: String, path: String) -> (n: Self)
        ensures
            n.name@ == name@,
            n.path@ == path@,
            n.node_type == NodeType::File,
            n.children is None,
            !n.is_expanded,
    {
        TreeNode { name, path, node_type: NodeType::File, children: None, is_expanded: false }
    }
}


/// The nodes among `s` whose name is `key`, in order.
pub open spec fn with_name(s: Seq<TreeNode>, key: Seq<char>) -> Seq<TreeNode> {
    s.filter(name_is(key))
}

/// Whether a node's name is `key`.
pub open spec fn name_is(key: Seq<char>) -> spec_fn(TreeNode) -> bool {
    |n: TreeNode| n.name@ == key
}

/// The nodes are in the order of their names.
pub open spec fn sorted_by_name(s: Seq<TreeNode>) -> bool {
    forall|i: int, j: int| 0 <= i < j < s.len() ==> chars_le(#[trigger] s[i].name@, #[trigger] s[j].name@)
}

proof fn lemma_with_name_push(s: Seq<TreeNode>, x: TreeNode, key: Seq<char>)
    ensures
        with_name(s.push(x), key) == if x.name@ == key {
            with_name(s, key).push(x)
        } else {
            with_name(s, key)
        },
{
    s.lemma_filter_push(x, name_is(key));
}

proof fn lemma_with_name_none(s: Seq<TreeNode>, key: Seq<char>)
    requires
        forall|i: int| 0 <= i < s.len() ==> (#[trigger] s[i]).name@ != key,
    ensures
        with_name(s, key) == Seq::<TreeNode>::empty(),
    decreases s.len(),
{
    if s.len() > 0 {
        lemma_with_name_none(s.drop_last(), key);
        lemma_with_name_push(s.drop_last(), s.last(), key);
        assert(s.drop_last().push(s.last()) =~= s);
    } else {
        assert(with_name(s, key) =~= Seq::<TreeNode>::empty()) by {
            reveal(Seq::filter);
        }
    }
}

proof fn lemma_with_name_add(a: Seq<TreeNode>, b: Seq<TreeNode>, key: Seq<char>)
    ensures
        with_name(a + b, key) == with_name(a, key) + with_name(b, key),
{
    Seq::filter_distributes_over_add(a, b, name_is(key));
}

proof fn lemma_with_name_split(s: Seq<TreeNode>, key: Seq<char>)
    requires
        s.len() > 0,
    ensures
        with_name(s, key) == (if s[0].name@ == key {
            seq![s[0]]
        } else {
            Seq::<TreeNode>::empty()
        }) + with_name(s.drop_first(), key),
{
    assert(seq![s[0]] + s.drop_first() =~= s);
    s.drop_first().lemma_filter_prepend(s[0], name_is(key));
}

proof fn lemma_sorted_first_le(s: Seq<TreeNode>, x: TreeNode)
    requires
        sorted_by_name(s),
        s.contains(x),
    ensures
        chars_le(s[0].name@, x.name@),
{
    let j = choose|j: int| 0 <= j < s.len() && s[j] == x;
    if j == 0 {
        lemma_chars_le_reflexive(x.name@);
    } else {
        assert(chars_le(s[0].name@, s[j].name@));
    }
}

/// A list sorted by name is determined by its nodes of each name: two sorted
/// lists with the same nodes of each name, in the same order, are equal. So
/// the contract of `sort_by_name` fixes its result.
pub proof fn lemma_sorted_by_name_unique(a: Seq<TreeNode>, b: Seq<TreeNode>)
    requires
        sorted_by_name(a),
        sorted_by_name(b),
        forall|key: Seq<char>| #[trigger] with_name(a, key) == with_name(b, key),
    ensures
        a == b,
    decreases a.len(),
{
    if a.len() == 0 || b.len() == 0 {
        if a.len() > 0 {
            lemma_with_name_split(a, a[0].name@);
            assert(with_name(b, a[0].name@) =~= Seq::<TreeNode>::empty()) by {
                reveal(Seq::filter);
            }
            assert(false);
        }
        if b.len() > 0 {
            lemma_with_name_split(b, b[0].name@);
            assert(with_name(a, b[0].name@) =~= Seq::<TreeNode>::empty()) by {
                reveal(Seq::filter);
            }
            assert(with_name(a, b[0].name@) == with_name(b, b[0].name@));
            assert(false);
        }
        assert(a =~= b);
    } else {
        let ka = a[0].name@;
        let kb = b[0].name@;
        lemma_with_name_split(a, ka);
        lemma_with_name_split(b, kb);
        assert(with_name(a, ka)[0] == a[0]);
        assert(with_name(b, ka).contains(a[0])) by {
            assert(with_name(b, ka) == with_name(a, ka));
            assert(with_name(a, ka)[0] == a[0]);
        }
        b.lemma_filter_contains_rev(name_is(ka), a[0]);
        lemma_sorted_first_le(b, a[0]);
        assert(with_name(b, kb)[0] == b[0]);
        assert(with_name(a, kb).contains(b[0])) by {
            assert(with_name(a, kb) == with_name(b, kb));
        }
        a.lemma_filter_contains_rev(name_is(kb), b[0]);
        lemma_sorted_first_le(a, b[0]);
        lemma_chars_le_antisymmetric(ka, kb);
        assert(a[0] == b[0]) by {
            assert(with_name(a, ka) == with_name(b, ka));
        }
        let a1 = a.drop_first();
        let b1 = b.drop_first();
        assert forall|key: Seq<char>| #[trigger] with_name(a1, key) == with_name(b1, key) by {
            lemma_with_name_split(a, key);
            lemma_with_name_split(b, key);
            assert(with_name(a, key) == with_name(b, key));
            if key == ka {
                assert(with_name(a1, key) =~= with_name(a, key).drop_first());
                assert(with_name(b1, key) =~= with_name(b, key).drop_first());
            } else {
                assert(with_name(a1, key) =~= with_name(a, key));
                assert(with_name(b1, key) =~= with_name(b, key));
            }
        }
        assert(sorted_by_name(a1)) by {
            assert forall|i: int, j: int| 0 <= i < j < a1.len() implies chars_le(
                #[trigger] a1[i].name@,
                #[trigger] a1[j].name@,
            ) by {
                assert(chars_le(a[i + 1].name@, a[j + 1].name@));
            }
        }
        assert(sorted_by_name(b1)) by {
            assert forall|i: int, j: int| 0 <= i < j < b1.len() implies chars_le(
                #[trigger] b1[i].name@,
                #[trigger] b1[j].name@,
            ) by {
                assert(chars_le(b[i + 1].name@, b[j + 1].name@));
            }
        }
        lemma_sorted_by_name_unique(a1, b1);
        assert forall|i: int| 0 <= i < a.len() implies a[i] == b[i] by {
            if i > 0 {
                assert(a[i] == a1[i - 1]);
                assert(b[i] == b1[i - 1]);
            }
        }
        assert(a =~= b);
    }
}

/// The nodes sorted by name; nodes of equal name keep their order (a stable
/// sort, as `sort_by` on the names is).
pub fn sort_by_name(nodes: Vec<TreeNode>) -> (r: Vec<TreeNode>)
    ensures
        sorted_by_name(r@),
        forall|key: Seq<char>| #[trigger] with_name(r@, key) == with_name(nodes@, key),
{
    let ghost orig = nodes@;
    let n = nodes.len();
    let mut input = nodes;
    let mut out: Vec<TreeNode> = Vec::new();
    let mut i: usize = 0;
    assert(orig.subrange(0, 0) =~= Seq::<TreeNode>::empty());
    assert(orig.subrange(0, n as int) =~= orig);
    assert forall|key: Seq<char>| #[trigger] with_name(out@, key) == with_name(orig.subrange(0, 0), key) by {
        assert(out@ =~= orig.subrange(0, 0));
    }
    while i < n
        invariant
            0 <= i <= n == orig.len(),
            input@ == orig.subrange(i as int, n as int),
            sorted_by_name(out@),
            forall|key: Seq<char>|
                #[trigger] with_name(out@, key) == with_name(orig.subrange(0, i as int), key),
        decreases n - i,
    {
        let x = input.remove(0);
        assert(x == orig[i as int]);
        assert(input@ =~= orig.subrange(i + 1, n as int));
        let mut p: usize = 0;
        while p < out.len() && str_le(out[p].name.as_str(), x.name.as_str())
            invariant
                0 <= p <= out@.len(),
                forall|j: int| 0 <= j < p ==> chars_le((#[trigger] out@[j]).name@, x.name@),
            decreases out@.len() - p,
        {
            p = p + 1;
        }
        let ghost old_out = out@;
        proof {
            assert forall|j: int| p <= j < old_out.len() implies !chars_le(
                (#[trigger] old_out[j]).name@,
                x.name@,
            ) by {
                if chars_le(old_out[j].name@, x.name@) {
                    assert(chars_le(old_out[p as int].name@, old_out[j].name@)) by {
                        if p < j {
                        } else {
                            lemma_chars_le_reflexive(old_out[j].name@);
                        }
                    }
                    lemma_chars_le_transitive(old_out[p as int].name@, old_out[j].name@, x.name@);
                }
            }
        }
        out.insert(p, x);
        proof {
            let a = old_out.subrange(0, p as int);
            let b = old_out.subrange(p as int, old_out.len() as int);
            assert(out@ =~= a + seq![x] + b);
            assert(old_out =~= a + b);
            assert forall|u: int, v: int| 0 <= u < v < out@.len() implies chars_le(
                #[trigger] out@[u].name@,
                #[trigger] out@[v].name@,
            ) by {
                if v < p {
                    assert(chars_le(old_out[u].name@, old_out[v].name@));
                } else if v == p {
                    assert(chars_le(old_out[u].name@, x.name@));
                } else if u == p {
                    assert(!chars_le(old_out[v - 1].name@, x.name@));
                    lemma_chars_le_total(old_out[v - 1].name@, x.name@);
                } else if u < p {
                    assert(chars_le(old_out[u].name@, old_out[v - 1].name@));
                } else {
                    assert(chars_le(old_out[u - 1].name@, old_out[v - 1].name@));
                }
            }
            assert(orig.subrange(0, i + 1) =~= orig.subrange(0, i as int).push(x));
            assert forall|key: Seq<char>| #[trigger]
                with_name(out@, key) == with_name(orig.subrange(0, i + 1), key) by {
                lemma_with_name_push(orig.subrange(0, i as int), x, key);
                lemma_with_name_add(a + seq![x], b, key);
                lemma_with_name_add(a, seq![x], key);
                lemma_with_name_add(a, b, key);
                lemma_with_name_push(Seq::<TreeNode>::empty(), x, key);
                assert(Seq::<TreeNode>::empty().push(x) =~= seq![x]);
                assert(with_name(Seq::<TreeNode>::empty(), key) =~= Seq::<TreeNode>::empty()) by {
                    reveal(Seq::filter);
                }
                if x.name@ == key {
                    assert forall|j: int| 0 <= j < b.len() implies (#[trigger] b[j]).name@ != key by {
                        assert(b[j] == old_out[p + j]);
                        if b[j].name@ == key {
                            lemma_chars_le_reflexive(key);
                        }
                    }
                    lemma_with_name_none(b, key);
                    assert(with_name(old_out, key) =~= with_name(a, key));
                    assert(with_name(out@, key) =~= with_name(a, key).push(x));
                } else {
                    assert(with_name(out@, key) =~= with_name(a, key) + with_name(b, key));
                }
            }
        }
        i = i + 1;
    }
    out
}


/// The key under which `p4 dirs` (for directories) or `p4 files` (for
/// files) gives a path.
pub open spec fn listing_key(kind: NodeType) -> Seq<char> {
    match kind {
        NodeType::Directory => "dir"@,
        NodeType::File => "depotFile"@,
    }
}

/// The `p4` command that lists the directories or the files of a directory.
pub open spec fn listing_command(kind: NodeType) -> Seq<char> {
    match kind {
        NodeType::Directory => "dirs"@,
        NodeType::File => "files"@,
    }
}

/// The paths that records give under `key`, in order; records without it
/// are skipped.
pub open spec fn listed_paths(records: Seq<RecordMap>, key: Seq<char>) -> Seq<Seq<char>>
    decreases records.len(),
{
    if records.len() == 0 {
        Seq::empty()
    } else {
        let before = listed_paths(records.drop_last(), key);
        if records.last().contains_key(key) {
            before.push(records.last()[key])
        } else {
            before
        }
    }
}

/// `n` is the node of kind `kind` for the depot path `path`: named by the
/// last part of the path, children not fetched, not expanded.
pub open spec fn is_listed_node(n: TreeNode, path: Seq<char>, kind: NodeType) -> bool {
    &&& n.name@ == after_last_slash(path)
    &&& n.path@ == path
    &&& n.node_type == kind
    &&& n.children is None
    &&& !n.is_expanded
}

/// `nodes` are the nodes of kind `kind` for `paths`, in order.
pub open spec fn nodes_listed(nodes: Seq<TreeNode>, paths: Seq<Seq<char>>, kind: NodeType) -> bool {
    &&& nodes.len() == paths.len()
    &&& forall|i: int| 0 <= i < nodes.len() ==> is_listed_node(#[trigger] nodes[i], paths[i], kind)
}

/// A listed node keeps the full depot path of its record, is of the kind
/// listed, and is named by the end of that path: a part of it with no `/`
/// that ends it.
pub proof fn lemma_listed_node_keeps_path(nodes: Seq<TreeNode>, paths: Seq<Seq<char>>, kind: NodeType)
    requires
        nodes_listed(nodes, paths, kind),
    ensures
        nodes.len() == paths.len(),
        forall|i: int|
            0 <= i < nodes.len() ==> {
                &&& (#[trigger] nodes[i]).path@ == paths[i]
                &&& nodes[i].node_type == kind
                &&& nodes[i].name@.len() <= paths[i].len()
                &&& nodes[i].name@ == paths[i].subrange(
                    paths[i].len() - nodes[i].name@.len(),
                    paths[i].len() as int,
                )
                &&& !nodes[i].name@.contains('/')
            },
{
    assert forall|i: int| 0 <= i < nodes.len() implies {
        &&& (#[trigger] nodes[i]).path@ == paths[i]
        &&& nodes[i].node_type == kind
        &&& nodes[i].name@.len() <= paths[i].len()
        &&& nodes[i].name@ == paths[i].subrange(
            paths[i].len() - nodes[i].name@.len(),
            paths[i].len() as int,
        )
        &&& !nodes[i].name@.contains('/')
    } by {
        assert(is_listed_node(nodes[i], paths[i], kind));
        lemma_after_last_slash_suffix(paths[i]);
    }
}

proof fn lemma_after_last_slash_suffix(p: Seq<char>)
    ensures
        after_last_slash(p).len() <= p.len(),
        after_last_slash(p) == p.subrange(p.len() - after_last_slash(p).len(), p.len() as int),
        !after_last_slash(p).contains('/'),
    decreases p.len(),
{
    if p.len() > 0 && p.last() != '/' {
        let q = p.drop_last();
        lemma_after_last_slash_suffix(q);
        let t = after_last_slash(q);
        assert(after_last_slash(p) == t.push(p.last()));
        assert(t.push(p.last()) =~= p.subrange(p.len() - (t.len() + 1), p.len() as int)) by {
            assert forall|k: int| 0 <= k < t.len() implies t[k] == p[p.len() - (t.len() + 1) + k] by {
                assert(t[k] == q[q.len() - t.len() + k]);
            }
        }
        assert(!t.push(p.last()).contains('/')) by {
            if t.push(p.last()).contains('/') {
                let k = choose|k: int| 0 <= k < t.len() + 1 && t.push(p.last())[k] == '/';
                if k < t.len() {
                    assert(t.contains('/'));
                }
            }
        }
    } else {
        assert(p.subrange(p.len() as int, p.len() as int) =~= Seq::<char>::empty());
        if p.len() == 0 {
            assert(p =~= Seq::<char>::empty());
        }
        assert(after_last_slash(p) =~= Seq::<char>::empty());
    }
}

/// `value` is the value of `key` in one of `records`.
pub open spec fn is_value_in_records(records: Seq<RecordMap>, key: Seq<char>, value: Seq<char>) -> bool {
    exists|j: int| 0 <= j < records.len() && (#[trigger] records[j]).contains_key(key) && records[j][key] == value
}

/// The paths that a listing gives come from its records, one for each
/// record that has the key, in the order of the records: each listed path
/// is the key's value in some record, and each record with the key gives a
/// path; as many paths as such records.
pub proof fn lemma_listed_paths_from_records(records: Seq<RecordMap>, key: Seq<char>)
    ensures
        forall|i: int|
            0 <= i < listed_paths(records, key).len() ==> is_value_in_records(
                records,
                key,
                #[trigger] listed_paths(records, key)[i],
            ),
        forall|j: int|
            0 <= j < records.len() && (#[trigger] records[j]).contains_key(key) ==> listed_paths(
                records,
                key,
            ).contains(records[j][key]),
        listed_paths(records, key).len() == records.filter(|r: RecordMap| r.contains_key(key)).len(),
    decreases records.len(),
{
    reveal(Seq::filter);
    if records.len() > 0 {
        let rs = records.drop_last();
        lemma_listed_paths_from_records(rs, key);
        let before = listed_paths(rs, key);
        let now = listed_paths(records, key);
        assert forall|i: int| 0 <= i < now.len() implies is_value_in_records(
            records,
            key,
            #[trigger] now[i],
        ) by {
            if i < before.len() {
                assert(is_value_in_records(rs, key, before[i]));
                let j = choose|j: int|
                    0 <= j < rs.len() && (#[trigger] rs[j]).contains_key(key) && rs[j][key]
                        == before[i];
                assert(records[j] == rs[j]);
            } else {
                assert(records[records.len() - 1] == records.last());
            }
        }
        assert forall|j: int| 0 <= j < records.len() && (#[trigger] records[j]).contains_key(key)
            implies now.contains(records[j][key]) by {
            if j < rs.len() {
                assert(rs[j] == records[j]);
                assert(before.contains(rs[j][key]));
                let k = choose|k: int| 0 <= k < before.len() && before[k] == rs[j][key];
                assert(now[k] == before[k]);
            } else {
                assert(records[j] == records.last());
                assert(now[now.len() - 1] == records.last()[key]);
            }
        }
    }
}

/// Every node that a listing gives carries, as its path, the full value of
/// the listing key in one of the output's records, and is of the kind
/// listed.
pub proof fn lemma_listing_keeps_depot_paths(output: Seq<char>, kind: NodeType, nodes: Seq<TreeNode>)
    requires
        nodes_listed(nodes, listed_paths(ztag_records(output), listing_key(kind)), kind),
    ensures
        forall|i: int|
            0 <= i < nodes.len() ==> is_value_in_records(
                ztag_records(output),
                listing_key(kind),
                (#[trigger] nodes[i]).path@,
            ) && nodes[i].node_type == kind,
{
    let paths = listed_paths(ztag_records(output), listing_key(kind));
    lemma_listed_node_keeps_path(nodes, paths, kind);
    lemma_listed_paths_from_records(ztag_records(output), listing_key(kind));
    assert forall|i: int| 0 <= i < nodes.len() implies is_value_in_records(
        ztag_records(output),
        listing_key(kind),
        (#[trigger] nodes[i]).path@,
    ) && nodes[i].node_type == kind by {
        assert(nodes[i].path@ == paths[i]);
    }
}

/// The arguments of `p4` (before `-Ztag`) that list the directories or the
/// files of `parent_path`: `dirs <parent>/*` or `files <parent>/*`.
pub fn listing_args(kind: NodeType, parent_path: &str) -> (r: Vec<String>)
    ensures
        string_views(r@) == seq![listing_command(kind), parent_path@ + "/*"@],
{
    let command = match kind {
        NodeType::Directory => String::from_str("dirs"),
        NodeType::File => String::from_str("files"),
    };
    let mut pattern = String::from_str(parent_path);
    pattern.append("/*");
    let r = vec![command, pattern];
    assert(string_views(r@) =~= seq![listing_command(kind), parent_path@ + "/*"@]);
    r
}

/// The nodes that the tagged output of `p4 dirs` or `p4 files` lists.
pub fn nodes_from_listing(output: &str, kind: NodeType) -> (r: Vec<TreeNode>)
    ensures
        nodes_listed(r@, listed_paths(ztag_records(output@), listing_key(kind)), kind),
{
    let ztag = parse_ztag(output);
    let key = match kind {
        NodeType::Directory => "dir",
        NodeType::File => "depotFile",
    };
    assert(key@ == listing_key(kind));
    let mut children: Vec<TreeNode> = Vec::new();
    let mut i: usize = 0;
    assert(ztag@.subrange(0, 0) =~= Seq::<RecordMap>::empty());
    while i < ztag.records.len()
        invariant
            0 <= i <= ztag@.len(),
            ztag@.len() == ztag.records@.len(),
            key@ == listing_key(kind),
            nodes_listed(children@, listed_paths(ztag@.subrange(0, i as int), key@), kind),
        decreases ztag@.len() - i,
    {
        let record = &ztag.records[i];
        assert(ztag@.subrange(0, i + 1).drop_last() =~= ztag@.subrange(0, i as int));
        assert(ztag@[i as int] == record@);
        match record.get(key) {
            Some(path) => {
                let name = last_segment(path.as_str());
                let node = match kind {
                    NodeType::Directory => TreeNode::new_directory(name, path.clone()),
                    NodeType::File => TreeNode::new_file(name, path.clone()),
                };
                children.push(node);
            },
            None => {},
        }
        i = i + 1;
    }
    assert(ztag@.subrange(0, i as int) =~= ztag@);
    children
}

/// The error of a listing that only says that nothing matched: `p4 dirs`
/// and `p4 files` fail with "no such file(s)" on a directory without
/// directories or files.
pub open spec fn is_nothing_listed(e: P4Error) -> bool {
    e matches P4Error::Process(m) && contains_chars(m@, "no such file(s)"@)
}

/// The children of one kind that the result of `p4 dirs` or `p4 files`
/// gives: the listed nodes; none where the command only found nothing;
/// the error otherwise.
pub fn listing_children(result: Result<String, P4Error>, kind: NodeType) -> (r: Result<
    Vec<TreeNode>,
    P4Error,
>)
    ensures
        match result {
            Ok(output) => r matches Ok(nodes) && nodes_listed(
                nodes@,
                listed_paths(ztag_records(output@), listing_key(kind)),
                kind,
            ),
            Err(e) => if is_nothing_listed(e) {
                r matches Ok(nodes) && nodes@.len() == 0
            } else {
                r == Err::<Vec<TreeNode>, P4Error>(e)
            },
        },
{
    match result {
        Ok(output) => Ok(nodes_from_listing(output.as_str(), kind)),
        Err(e) => {
            let nothing = match &e {
                P4Error::Process(m) => contains_str(m.as_str(), "no such file(s)"),
                _ => false,
            };
            if nothing {
                Ok(Vec::new())
            } else {
                Err(e)
            }
        },
    }
}

/// The children of a directory: its directories and its files, sorted by
/// name (stably, directories first among equal names).
pub fn children_of(dirs: Vec<TreeNode>, files: Vec<TreeNode>) -> (r: Vec<TreeNode>)
    ensures
        sorted_by_name(r@),
        forall|key: Seq<char>| #[trigger] with_name(r@, key) == with_name(dirs@ + files@, key),
{
    let mut all = dirs;
    let mut rest = files;
    let ghost both = dirs@ + files@;
    all.append(&mut rest);
    assert(all@ =~= both);
    sort_by_name(all)
}


/// What fetching the children of a directory does after listing its
/// directories.
pub enum ChildrenStep {
    /// List the files next; these are the directories.
    ListFiles(Vec<TreeNode>),
    /// Nothing more is listed: this is the outcome.
    Done(Result<Vec<TreeNode>, P4Error>),
}

/// The step after `p4 dirs`: go on to list the files with the directories
/// found (none where the listing only found nothing); stop with the error of
/// a listing that failed otherwise, without listing the files.
pub fn after_dirs_listing(result: Result<String, P4Error>) -> (s: ChildrenStep)
    ensures
        match result {
            Ok(output) => s matches ChildrenStep::ListFiles(dirs) && nodes_listed(
                dirs@,
                listed_paths(ztag_records(output@), "dir"@),
                NodeType::Directory,
            ),
            Err(e) => if is_nothing_listed(e) {
                s matches ChildrenStep::ListFiles(dirs) && dirs@.len() == 0
            } else {
                s == ChildrenStep::Done(Err(e))
            },
        },
{
    match listing_children(result, NodeType::Directory) {
        Ok(dirs) => ChildrenStep::ListFiles(dirs),
        Err(e) => ChildrenStep::Done(Err(e)),
    }
}

/// The outcome after `p4 files`, given the directories already found: all
/// children sorted by name (no files where the listing only found nothing);
/// the error of a listing that failed otherwise, the directories dropped.
pub fn after_files_listing(dirs: Vec<TreeNode>, result: Result<String, P4Error>) -> (r: Result<
    Vec<TreeNode>,
    P4Error,
>)
    ensures
        match result {
            Ok(output) => r matches Ok(children) && sorted_by_name(children@) && exists|
                files: Seq<TreeNode>,
            |
                {
                    &&& nodes_listed(
                        files,
                        listed_paths(ztag_records(output@), "depotFile"@),
                        NodeType::File,
                    )
                    &&& forall|key: Seq<char>| #[trigger]
                        with_name(children@, key) == with_name(dirs@ + files, key)
                },
            Err(e) => if is_nothing_listed(e) {
                r matches Ok(children) && sorted_by_name(children@) && forall|key: Seq<char>|
                    #[trigger] with_name(children@, key) == with_name(dirs@, key)
            } else {
                r == Err::<Vec<TreeNode>, P4Error>(e)
            },
        },
{
    let ghost d = dirs@;
    match listing_children(result, NodeType::File) {
        Ok(files) => {
            let ghost f = files@;
            let children = children_of(dirs, files);
            proof {
                if result is Err {
                    assert(f.len() == 0);
                    assert(d + f =~= d);
                }
            }
            Ok(children)
        },
        Err(e) => Err(e),
    }
}

} // verus!
