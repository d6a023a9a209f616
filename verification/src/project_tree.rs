use std::collections::HashSet;
use vstd::prelude::*;
use vstd::string::StringExecFns;

use crate::text::{decimal, push_decimal};

verus! {

broadcast use vstd::std_specs::hash::group_hash_axioms;

/// Identifier of an instance in a project tree.
#[derive(Clone, Copy, Debug, PartialEq, Eq, Structural, Hash, PartialOrd, Ord)]
pub struct InstanceId(u64);

impl View for InstanceId {
    type V = u64;

    closed spec fn view(&self) -> u64 {
        self.0
    }
}

/// The id whose value is `v`.
pub closed spec fn id_of(v: u64) -> InstanceId {
    InstanceId(v)
}

pub broadcast proof fn lemma_id_of_value(v: u64)
    ensures
        #[trigger] id_of(v)@ == v,
{
}

impl InstanceId {
    pub fn new(value: u64) -> (id: Self)
        ensures
            id@ == value,
            id == id_of(value),
    {
        Self(value)
    }

    pub fn value(self) -> (v: u64)
        ensures
            v == self@,
    {
        self.0
    }

    /// Two ids are equal exactly when their numeric values are.
    pub proof fn lemma_view_injective(a: InstanceId, b: InstanceId)
        ensures
            (a == b) <==> (a@ == b@),
    {
    }

    /// Every id is the id of its value.
    pub proof fn lemma_id_of_view(a: InstanceId)
        ensures
            a == id_of(a@),
    {
    }
}

/// Mathematical model of an instance node: its id, its name, its class name
/// and the models of its children, in order.
pub ghost struct NodeModel {
    pub id: InstanceId,
    pub name: Seq<char>,
    pub class_name: Seq<char>,
    pub children: Seq<NodeModel>,
}

/// The ids of a tree in depth-first order: the node first, then the ids of
/// each child's subtree, children in order.
pub open spec fn preorder(n: NodeModel) -> Seq<InstanceId>
    decreases n, 1nat,
{
    seq![n.id] + forest_preorder(n.children)
}

/// The ids of a sequence of trees in depth-first order, tree after tree.
pub open spec fn forest_preorder(ns: Seq<NodeModel>) -> Seq<InstanceId>
    decreases ns, 0nat,
{
    if ns.len() == 0 {
        Seq::empty()
    } else {
        forest_preorder(ns.drop_last()) + preorder(ns.last())
    }
}

/// The first node in depth-first order whose id is `id`.
pub open spec fn find_in(n: NodeModel, id: InstanceId) -> Option<NodeModel>
    decreases n, 1nat,
{
    if n.id == id {
        Some(n)
    } else {
        forest_find(n.children, id)
    }
}

/// The first node, over a sequence of trees in depth-first order, whose id is `id`.
pub open spec fn forest_find(ns: Seq<NodeModel>, id: InstanceId) -> Option<NodeModel>
    decreases ns, 0nat,
{
    if ns.len() == 0 {
        None
    } else {
        match forest_find(ns.drop_last(), id) {
            Some(m) => Some(m),
            None => find_in(ns.last(), id),
        }
    }
}

/// The first element of `s` that already occurred earlier in `s`.
pub open spec fn first_repeat(s: Seq<InstanceId>) -> Option<InstanceId>
    decreases s.len(),
{
    if s.len() == 0 {
        None
    } else {
        match first_repeat(s.drop_last()) {
            Some(x) => Some(x),
            None => if s.drop_last().contains(s.last()) {
                Some(s.last())
            } else {
                None
            },
        }
    }
}

#[derive(Debug, PartialEq, Eq)]
pub struct InstanceNode {
    id: InstanceId,
    name: String,
    class_name: String,
    children: Vec<InstanceNode>,
}

/// Models of a sequence of nodes, in order.
pub closed spec fn forest_model(nodes: Seq<InstanceNode>) -> Seq<NodeModel>
    decreases nodes, 0nat,
{
    if nodes.len() == 0 {
        Seq::empty()
    } else {
        forest_model(nodes.drop_last()).push(node_model(nodes.last()))
    }
}

pub closed spec fn node_model(node: InstanceNode) -> NodeModel
    decreases node, 1nat,
{
    NodeModel {
        id: node.id,
        name: node.name@,
        class_name: node.class_name@,
        children: forest_model(node.children@),
    }
}

impl View for InstanceNode {
    type V = NodeModel;

    open spec fn view(&self) -> NodeModel {
        node_model(*self)
    }
}

proof fn lemma_forest_model_len(nodes: Seq<InstanceNode>)
    ensures
        forest_model(nodes).len() == nodes.len(),
        forall|i: int| 0 <= i < nodes.len() ==> #[trigger] forest_model(nodes)[i] == node_model(nodes[i]),
    decreases nodes.len(),
{
    if nodes.len() > 0 {
        lemma_forest_model_len(nodes.drop_last());
    }
}

proof fn lemma_forest_model_push(nodes: Seq<InstanceNode>, n: InstanceNode)
    ensures
        forest_model(nodes.push(n)) == forest_model(nodes).push(node_model(n)),
{
    assert(nodes.push(n).drop_last() =~= nodes);
}

proof fn lemma_forest_model_take(nodes: Seq<InstanceNode>, i: int)
    requires
        0 <= i < nodes.len(),
    ensures
        forest_model(nodes.take(i + 1)) == forest_model(nodes.take(i)).push(node_model(nodes[i])),
{
    assert(nodes.take(i + 1).drop_last() =~= nodes.take(i));
}

proof fn lemma_forest_model_take_all(nodes: Seq<InstanceNode>, i: int)
    requires
        0 <= i <= nodes.len(),
    ensures
        forest_model(nodes.take(i)) == forest_model(nodes).take(i),
{
    lemma_forest_model_len(nodes);
    lemma_forest_model_len(nodes.take(i));
    assert(forest_model(nodes.take(i)) =~= forest_model(nodes).take(i));
}

proof fn lemma_forest_find_prefix(ns: Seq<NodeModel>, i: int, id: InstanceId)
    requires
        0 <= i <= ns.len(),
        forest_find(ns.take(i), id) is Some,
    ensures
        forest_find(ns, id) == forest_find(ns.take(i), id),
    decreases ns.len() - i,
{
    if i < ns.len() {
        assert(ns.take(i + 1).drop_last() =~= ns.take(i));
        lemma_forest_find_prefix(ns, i + 1, id);
    } else {
        assert(ns.take(i) =~= ns);
    }
}

proof fn lemma_forest_preorder_push(ns: Seq<NodeModel>, n: NodeModel)
    ensures
        forest_preorder(ns.push(n)) == forest_preorder(ns) + preorder(n),
{
    assert(ns.push(n).drop_last() =~= ns);
}

proof fn lemma_forest_find_push(ns: Seq<NodeModel>, n: NodeModel, id: InstanceId)
    ensures
        forest_find(ns.push(n), id) == (match forest_find(ns, id) {
            Some(m) => Some(m),
            None => find_in(n, id),
        }),
{
    assert(ns.push(n).drop_last() =~= ns);
}

impl InstanceNode {
    pub fn new(id: InstanceId, name: &str, class_name: &str) -> (node: Self)
        ensures
            node@.id == id,
            node@.name == name@,
            node@.class_name == class_name@,
            node@.children == Seq::<NodeModel>::empty(),
    {
        let node = Self {
            id,
            name: String::from_str(name),
            class_name: String::from_str(class_name),
            children: Vec::new(),
        };
        proof {
            assert(node.children@ =~= Seq::<InstanceNode>::empty());
        }
        node
    }

    pub fn id(&self) -> (id: InstanceId)
        ensures
            id == self@.id,
    {
        self.id
    }

    pub fn name(&self) -> (name: &str)
        ensures
            name@ == self@.name,
    {
        self.name.as_str()
    }

    pub fn class_name(&self) -> (class_name: &str)
        ensures
            class_name@ == self@.class_name,
    {
        self.class_name.as_str()
    }

    pub fn children(&self) -> (children: &[InstanceNode])
        ensures
            children@.len() == self@.children.len(),
            forall|i: int| 0 <= i < children@.len() ==> #[trigger] children@[i]@ == self@.children[i],
    {
        proof {
            lemma_forest_model_len(self.children@);
        }
        self.children.as_slice()
    }

    pub fn add_child(&mut self, child: Self)
        ensures
            final(self)@ == (NodeModel { children: old(self)@.children.push(child@), ..old(self)@ }),
    {
        proof {
            lemma_forest_model_push(self.children@, child);
        }
        self.children.push(child);
    }

    fn append_depth_first_ids(&self, ids: &mut Vec<InstanceId>)
        ensures
            final(ids)@ == old(ids)@ + preorder(self@),
        decreases self,
    {
        ids.push(self.id);
        let ghost start = old(ids)@;
        let mut i: usize = 0;
        while i < self.children.len()
            invariant
                i <= self.children@.len(),
                ids@ == start + seq![self.id] + forest_preorder(forest_model(self.children@.take(i as int))),
            decreases self.children@.len() - i,
        {
            proof {
                lemma_forest_model_take(self.children@, i as int);
                lemma_forest_preorder_push(forest_model(self.children@.take(i as int)), node_model(self.children@[i as int]));
                assert(decreases_to!(self => self.children@[i as int]));
            }
            self.children[i].append_depth_first_ids(ids);
            i = i + 1;
        }
        proof {
            assert(self.children@.take(i as int) =~= self.children@);
            assert(ids@ =~= start + preorder(self@));
        }
    }

    /// The ids of this subtree in depth-first order.
    pub fn depth_first_ids(&self) -> (ids: Vec<InstanceId>)
        ensures
            ids@ == preorder(self@),
    {
        let mut ids = Vec::new();
        self.append_depth_first_ids(&mut ids);
        proof {
            assert(ids@ =~= preorder(self@));
        }
        ids
    }

    /// The first node of this subtree in depth-first order whose id is `id`.
    pub fn find(&self, id: InstanceId) -> (found: Option<&Self>)
        ensures
            match found {
                Some(n) => find_in(self@, id) == Some(n@),
                None => find_in(self@, id) is None,
            },
        decreases self,
    {
        if self.id == id {
            return Some(self);
        }
        let mut i: usize = 0;
        while i < self.children.len()
            invariant
                i <= self.children@.len(),
                self.id != id,
                forest_find(forest_model(self.children@.take(i as int)), id) is None,
            decreases self.children@.len() - i,
        {
            proof {
                lemma_forest_model_take(self.children@, i as int);
                lemma_forest_find_push(forest_model(self.children@.take(i as int)), node_model(self.children@[i as int]), id);
                assert(decreases_to!(self => self.children@[i as int]));
            }
            let found = self.children[i].find(id);
            if found.is_some() {
                proof {
                    lemma_forest_model_take_all(self.children@, i + 1);
                    lemma_forest_model_len(self.children@);
                    lemma_forest_find_prefix(forest_model(self.children@), i + 1, id);
                }
                return found;
            }
            i = i + 1;
        }
        proof {
            assert(self.children@.take(i as int) =~= self.children@);
        }
        None
    }
}

impl Clone for InstanceNode {
    /// A copy of this node and its whole subtree.
    fn clone(&self) -> (copy: Self)
        ensures
            copy@ == self@,
        decreases self,
    {
        let mut children: Vec<InstanceNode> = Vec::new();
        let mut i: usize = 0;
        while i < self.children.len()
            invariant
                i <= self.children@.len(),
                children@.len() == i,
                forall|k: int| 0 <= k < i ==> #[trigger] children@[k]@ == self.children@[k]@,
            decreases self.children@.len() - i,
        {
            proof {
                assert(decreases_to!(self => self.children@[i as int]));
            }
            children.push(self.children[i].clone());
            i = i + 1;
        }
        let copy = Self { id: self.id, name: self.name.clone(), class_name: self.class_name.clone(), children };
        proof {
            lemma_forest_model_len(copy.children@);
            lemma_forest_model_len(self.children@);
            assert forall|k: int| 0 <= k < self.children@.len() implies forest_model(copy.children@)[k] == forest_model(self.children@)[k] by {
                assert(copy.children@[k]@ == self.children@[k]@);
            }
            assert(forest_model(copy.children@) =~= forest_model(self.children@));
        }
        copy
    }
}

/// A tree of instances in which no two instances share an id.
#[derive(Debug, PartialEq, Eq)]
pub struct ProjectTree {
    root: InstanceNode,
}

impl ProjectTree {
    #[verifier::type_invariant]
    closed spec fn ids_unique(self) -> bool {
        preorder(self.root@).no_duplicates()
    }
}

impl Clone for ProjectTree {
    /// A copy of the tree.
    fn clone(&self) -> (copy: Self)
        ensures
            copy@ == self@,
    {
        proof {
            use_type_invariant(self);
        }
        Self { root: self.root.clone() }
    }
}

impl View for ProjectTree {
    type V = NodeModel;

    closed spec fn view(&self) -> NodeModel {
        self.root@
    }
}

#[derive(Clone, Copy, Debug, PartialEq, Eq, Structural)]
pub enum ProjectTreeError {
    DuplicateInstanceId(InstanceId),
}

impl ProjectTreeError {
    /// The text that describes this error.
    pub open spec fn message_spec(self) -> Seq<char> {
        match self {
            ProjectTreeError::DuplicateInstanceId(id) => "duplicate instance id: "@ + decimal(id@ as nat),
        }
    }

    /// The text that describes this error.
    pub fn message(&self) -> (text: String)
        ensures
            text@ == self.message_spec(),
    {
        match self {
            ProjectTreeError::DuplicateInstanceId(id) => {
                let mut text = String::from_str("duplicate instance id: ");
                push_decimal(&mut text, id.value());
                text
            },
        }
    }
}

proof fn lemma_first_repeat_prefix(s: Seq<InstanceId>, i: int)
    requires
        0 <= i <= s.len(),
        first_repeat(s.take(i)) is Some,
    ensures
        first_repeat(s) == first_repeat(s.take(i)),
    decreases s.len() - i,
{
    if i < s.len() {
        assert(s.take(i + 1).drop_last() =~= s.take(i));
        lemma_first_repeat_prefix(s, i + 1);
    } else {
        assert(s.take(i) =~= s);
    }
}

/// A sequence has no repeated element exactly when it has no first repeated element.
pub proof fn lemma_first_repeat_none_iff_no_duplicates(s: Seq<InstanceId>)
    ensures
        (first_repeat(s) is None) <==> s.no_duplicates(),
    decreases s.len(),
{
    if s.len() > 0 {
        let p = s.drop_last();
        lemma_first_repeat_none_iff_no_duplicates(p);
        if first_repeat(s) is None {
            assert forall|i: int, j: int| 0 <= i < s.len() && 0 <= j < s.len() && i != j implies s[i] != s[j] by {
                if j == s.len() - 1 {
                    assert(p[i] == s[i]);
                } else if i == s.len() - 1 {
                    assert(p[j] == s[j]);
                } else {
                    assert(p[i] == s[i] && p[j] == s[j]);
                }
            }
        } else {
            if first_repeat(p) is None {
                let k = choose|k: int| 0 <= k < p.len() && p[k] == s.last();
                assert(s[k] == s[s.len() - 1]);
            } else {
                assert(!p.no_duplicates());
                let (a, b) = choose|a: int, b: int| 0 <= a < p.len() && 0 <= b < p.len() && a != b && p[a] == p[b];
                assert(s[a] == s[b]);
            }
        }
    }
}

/// The first repeated element occurs at two distinct positions.
pub proof fn lemma_first_repeat_occurs_twice(s: Seq<InstanceId>)
    requires
        first_repeat(s) is Some,
    ensures
        exists|i: int, j: int| 0 <= i < j < s.len() && s[i] == first_repeat(s)->0 && s[j] == first_repeat(s)->0,
    decreases s.len(),
{
    let p = s.drop_last();
    if first_repeat(p) is Some {
        lemma_first_repeat_occurs_twice(p);
        let (i, j) = choose|i: int, j: int| 0 <= i < j < p.len() && p[i] == first_repeat(p)->0 && p[j] == first_repeat(p)->0;
        assert(s[i] == p[i] && s[j] == p[j]);
    } else {
        let k = choose|k: int| 0 <= k < p.len() && p[k] == s.last();
        assert(s[k] == p[k]);
        assert(s[k] == first_repeat(s)->0 && s[s.len() - 1] == first_repeat(s)->0);
    }
}

impl ProjectTree {
    /// Builds a tree from `root`; fails with the first id, in depth-first
    /// order, that occurs a second time.
    pub fn try_new(root: InstanceNode) -> (result: Result<Self, ProjectTreeError>)
        ensures
            match result {
                Ok(tree) => tree@ == root@ && preorder(root@).no_duplicates(),
                Err(ProjectTreeError::DuplicateInstanceId(id)) => first_repeat(preorder(root@)) == Some(id),
            },
            result is Ok <==> preorder(root@).no_duplicates(),
    {
        let ids = root.depth_first_ids();
        let mut seen: HashSet<u64> = HashSet::new();
        let mut i: usize = 0;
        while i < ids.len()
            invariant
                i <= ids@.len(),
                ids@ == preorder(root@),
                first_repeat(ids@.take(i as int)) is None,
                forall|v: u64| seen@.contains(v) <==> exists|k: int| 0 <= k < i && (#[trigger] ids@[k])@ == v,
            decreases ids@.len() - i,
        {
            let id = ids[i];
            proof {
                assert(ids@.take(i + 1).drop_last() =~= ids@.take(i as int));
                assert(ids@.take(i + 1).last() == id);
            }
            if !seen.insert(id.value()) {
                proof {
                    let k = choose|k: int| 0 <= k < i && (#[trigger] ids@[k])@ == id@;
                    InstanceId::lemma_view_injective(ids@[k], id);
                    assert(ids@.take(i as int)[k] == id);
                    assert(first_repeat(ids@.take(i + 1)) == Some(id));
                    lemma_first_repeat_prefix(ids@, i + 1);
                    lemma_first_repeat_none_iff_no_duplicates(ids@);
                }
                return Err(ProjectTreeError::DuplicateInstanceId(id));
            }
            proof {
                assert forall|k: int| 0 <= k < i implies ids@.take(i as int)[k] != id by {
                    if ids@.take(i as int)[k] == id {
                        assert(ids@[k]@ == id@);
                    }
                }
                assert(!ids@.take(i as int).contains(id));
                assert forall|v: u64| seen@.contains(v) <==> exists|k: int| 0 <= k < i + 1 && (#[trigger] ids@[k])@ == v by {
                    if v == id@ {
                        assert(ids@[i as int]@ == v);
                    }
                }
            }
            i = i + 1;
        }
        proof {
            assert(ids@.take(i as int) =~= ids@);
            lemma_first_repeat_none_iff_no_duplicates(ids@);
        }
        Ok(Self { root })
    }

    pub fn root(&self) -> (root: &InstanceNode)
        ensures
            root@ == self@,
    {
        &self.root
    }

    /// The instance of the tree whose id is `id`, if any.
    pub fn find(&self, id: InstanceId) -> (found: Option<&InstanceNode>)
        ensures
            match found {
                Some(n) => find_in(self@, id) == Some(n@),
                None => find_in(self@, id) is None,
            },
    {
        self.root.find(id)
    }

    /// The ids of the tree in depth-first order.
    pub fn depth_first_ids(&self) -> (ids: Vec<InstanceId>)
        ensures
            ids@ == preorder(self@),
            ids@.no_duplicates(),
    {
        proof {
            use_type_invariant(self);
        }
        self.root.depth_first_ids()
    }
}

} // verus!

verus! {

/// Depth-first order starts with the node itself.
pub proof fn lemma_preorder_starts_with_root(n: NodeModel)
    ensures
        preorder(n).len() >= 1,
        preorder(n)[0] == n.id,
{
}

/// Whatever `find` gives has the id that was asked for.
pub proof fn lemma_find_in_has_id(n: NodeModel, id: InstanceId)
    ensures
        find_in(n, id) matches Some(m) ==> m.id == id,
    decreases n, 1nat,
{
    if n.id != id {
        lemma_forest_find_has_id(n.children, id);
    }
}

/// Whatever `find` gives over a sequence of trees has the id that was asked for.
pub proof fn lemma_forest_find_has_id(ns: Seq<NodeModel>, id: InstanceId)
    ensures
        forest_find(ns, id) matches Some(m) ==> m.id == id,
    decreases ns, 0nat,
{
    if ns.len() > 0 {
        lemma_forest_find_has_id(ns.drop_last(), id);
        lemma_find_in_has_id(ns.last(), id);
    }
}

/// `find` succeeds exactly for the ids that the depth-first listing holds.
pub proof fn lemma_find_in_iff_listed(n: NodeModel, id: InstanceId)
    ensures
        find_in(n, id) is Some <==> preorder(n).contains(id),
    decreases n, 1nat,
{
    lemma_forest_find_iff_listed(n.children, id);
    let p = preorder(n);
    if n.id == id {
        assert(p[0] == id);
    } else {
        let f = forest_preorder(n.children);
        if f.contains(id) {
            let k = choose|k: int| 0 <= k < f.len() && f[k] == id;
            assert(p[k + 1] == id);
        }
        if p.contains(id) {
            let k = choose|k: int| 0 <= k < p.len() && p[k] == id;
            assert(k != 0);
            assert(f[k - 1] == id);
        }
    }
}

/// `find` over a sequence of trees succeeds exactly for the ids that their
/// depth-first listing holds.
pub proof fn lemma_forest_find_iff_listed(ns: Seq<NodeModel>, id: InstanceId)
    ensures
        forest_find(ns, id) is Some <==> forest_preorder(ns).contains(id),
    decreases ns, 0nat,
{
    if ns.len() > 0 {
        lemma_forest_find_iff_listed(ns.drop_last(), id);
        lemma_find_in_iff_listed(ns.last(), id);
        let a = forest_preorder(ns.drop_last());
        let b = preorder(ns.last());
        let p = forest_preorder(ns);
        assert(p == a + b);
        if a.contains(id) {
            let k = choose|k: int| 0 <= k < a.len() && a[k] == id;
            assert(p[k] == id);
        }
        if b.contains(id) {
            let k = choose|k: int| 0 <= k < b.len() && b[k] == id;
            assert(p[a.len() + k] == id);
        }
        if p.contains(id) {
            let k = choose|k: int| 0 <= k < p.len() && p[k] == id;
            if k < a.len() {
                assert(a[k] == id);
            } else {
                assert(b[k - a.len()] == id);
            }
        }
    }
}

} // verus!

verus! {

/// Listing two sequences of trees one after the other lists the first, then the second.
pub proof fn lemma_forest_preorder_concat(a: Seq<NodeModel>, b: Seq<NodeModel>)
    ensures
        forest_preorder(a + b) == forest_preorder(a) + forest_preorder(b),
    decreases b.len(),
{
    if b.len() == 0 {
        assert(a + b =~= a);
        assert(forest_preorder(a) + forest_preorder(b) =~= forest_preorder(a));
    } else {
        assert((a + b).drop_last() =~= a + b.drop_last());
        assert((a + b).last() == b.last());
        lemma_forest_preorder_concat(a, b.drop_last());
        assert(forest_preorder(a) + forest_preorder(b.drop_last()) + preorder(b.last()) =~= forest_preorder(a) + (forest_preorder(b.drop_last()) + preorder(b.last())));
    }
}

/// A single tree lists as itself.
pub proof fn lemma_forest_preorder_single(n: NodeModel)
    ensures
        forest_preorder(seq![n]) == preorder(n),
{
    assert(seq![n].drop_last() =~= Seq::<NodeModel>::empty());
    assert(forest_preorder(Seq::<NodeModel>::empty()) + preorder(n) =~= preorder(n));
}

/// Distinct values give distinct ids.
pub proof fn lemma_id_of_injective(a: u64, b: u64)
    ensures
        (id_of(a) == id_of(b)) <==> (a == b),
{
}

} // verus!

verus! {

/// The nodes of a tree in depth-first order, each with its subtree.
pub open spec fn subtree_nodes(n: NodeModel) -> Seq<NodeModel>
    decreases n, 1nat,
{
    seq![n] + forest_nodes(n.children)
}

/// The nodes of a sequence of trees in depth-first order, tree after tree.
pub open spec fn forest_nodes(ns: Seq<NodeModel>) -> Seq<NodeModel>
    decreases ns, 0nat,
{
    if ns.len() == 0 {
        Seq::empty()
    } else {
        forest_nodes(ns.drop_last()) + subtree_nodes(ns.last())
    }
}

pub proof fn lemma_forest_nodes_concat(a: Seq<NodeModel>, b: Seq<NodeModel>)
    ensures
        forest_nodes(a + b) == forest_nodes(a) + forest_nodes(b),
    decreases b.len(),
{
    if b.len() == 0 {
        assert(a + b =~= a);
        assert(forest_nodes(a) + forest_nodes(b) =~= forest_nodes(a));
    } else {
        assert((a + b).drop_last() =~= a + b.drop_last());
        assert((a + b).last() == b.last());
        lemma_forest_nodes_concat(a, b.drop_last());
        assert(forest_nodes(a) + forest_nodes(b.drop_last()) + subtree_nodes(b.last()) =~= forest_nodes(a) + (forest_nodes(b.drop_last()) + subtree_nodes(b.last())));
    }
}

pub proof fn lemma_forest_nodes_single(n: NodeModel)
    ensures
        forest_nodes(seq![n]) == subtree_nodes(n),
{
    assert(seq![n].drop_last() =~= Seq::<NodeModel>::empty());
    assert(forest_nodes(Seq::<NodeModel>::empty()) + subtree_nodes(n) =~= subtree_nodes(n));
}

/// Position `k` of `s` is the first whose node has the id `id`.
pub open spec fn first_with_id(s: Seq<NodeModel>, id: InstanceId, k: int) -> bool {
    &&& 0 <= k < s.len()
    &&& s[k].id == id
    &&& forall|j: int| 0 <= j < k ==> s[j].id != id
}

/// A node that has the id asked for is itself what `find` gives: it comes
/// before its children in depth-first order.
pub proof fn lemma_find_in_self(n: NodeModel)
    ensures
        find_in(n, n.id) == Some(n),
{
}

/// `find` gives the first node, in depth-first order, that has the id asked
/// for, and nothing where no node of the tree has it.
pub proof fn lemma_find_in_first_listed(n: NodeModel, id: InstanceId)
    ensures
        find_in(n, id) matches Some(m) ==> exists|k: int| #[trigger] first_with_id(subtree_nodes(n), id, k) && subtree_nodes(n)[k] == m,
        find_in(n, id) is None ==> forall|k: int| 0 <= k < subtree_nodes(n).len() ==> #[trigger] subtree_nodes(n)[k].id != id,
    decreases n, 1nat,
{
    let s = subtree_nodes(n);
    let f = forest_nodes(n.children);
    assert(s == seq![n] + f);
    if n.id == id {
        assert(s[0] == n);
        assert(first_with_id(s, id, 0));
    } else {
        lemma_forest_find_first_listed(n.children, id);
        match forest_find(n.children, id) {
            Some(m) => {
                let k = choose|k: int| #[trigger] first_with_id(f, id, k) && f[k] == m;
                assert forall|j: int| 0 <= j < k + 1 implies s[j].id != id by {
                    if j > 0 {
                        assert(s[j] == f[j - 1]);
                    }
                }
                assert(s[k + 1] == f[k]);
                assert(first_with_id(s, id, k + 1));
            },
            None => {
                assert forall|k: int| 0 <= k < s.len() implies #[trigger] s[k].id != id by {
                    if k > 0 {
                        assert(s[k] == f[k - 1]);
                    }
                }
            },
        }
    }
}

/// `find` over a sequence of trees gives the first node, in their
/// depth-first order, that has the id asked for, and nothing where none has it.
pub proof fn lemma_forest_find_first_listed(ns: Seq<NodeModel>, id: InstanceId)
    ensures
        forest_find(ns, id) matches Some(m) ==> exists|k: int| #[trigger] first_with_id(forest_nodes(ns), id, k) && forest_nodes(ns)[k] == m,
        forest_find(ns, id) is None ==> forall|k: int| 0 <= k < forest_nodes(ns).len() ==> #[trigger] forest_nodes(ns)[k].id != id,
    decreases ns, 0nat,
{
    if ns.len() > 0 {
        let a = forest_nodes(ns.drop_last());
        let b = subtree_nodes(ns.last());
        let s = forest_nodes(ns);
        assert(s == a + b);
        lemma_forest_find_first_listed(ns.drop_last(), id);
        lemma_find_in_first_listed(ns.last(), id);
        match forest_find(ns.drop_last(), id) {
            Some(m) => {
                let k = choose|k: int| #[trigger] first_with_id(a, id, k) && a[k] == m;
                assert forall|j: int| 0 <= j < k implies s[j].id != id by {
                    assert(s[j] == a[j]);
                }
                assert(s[k] == a[k]);
                assert(first_with_id(s, id, k));
            },
            None => {
                match find_in(ns.last(), id) {
                    Some(m) => {
                        let k = choose|k: int| #[trigger] first_with_id(b, id, k) && b[k] == m;
                        assert forall|j: int| 0 <= j < a.len() + k implies s[j].id != id by {
                            if j < a.len() {
                                assert(s[j] == a[j]);
                            } else {
                                assert(s[j] == b[j - a.len()]);
                            }
                        }
                        assert(s[a.len() + k] == b[k]);
                        assert(first_with_id(s, id, a.len() + k));
                    },
                    None => {
                        assert forall|k: int| 0 <= k < s.len() implies #[trigger] s[k].id != id by {
                            if k < a.len() {
                                assert(s[k] == a[k]);
                            } else {
                                assert(s[k] == b[k - a.len()]);
                            }
                        }
                    },
                }
            },
        }
    }
}

} // verus!
