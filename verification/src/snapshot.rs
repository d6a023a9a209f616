use vstd::prelude::*;
use vstd::string::StringExecFns;

use crate::project_tree::{id_of, InstanceNode, NodeModel};
use crate::rojo::{scripts_model, LoadedProject, ScriptDocument, ScriptModel};

verus! {

/// A plain copy of a loaded project, ready to be handed out.
#[derive(Debug)]
pub struct ProjectSnapshot {
    pub name: String,
    pub project_file: String,
    pub root: InstanceSnapshot,
    pub scripts: Vec<ScriptSnapshot>,
}

/// A plain copy of an instance and its subtree.
#[derive(Debug)]
pub struct InstanceSnapshot {
    pub id: u64,
    pub name: String,
    pub class_name: String,
    pub children: Vec<InstanceSnapshot>,
}

/// A plain copy of a script document.
#[derive(Debug)]
pub struct ScriptSnapshot {
    pub id: u64,
    pub name: String,
    pub class_name: String,
    pub relative_path: String,
}

/// Models of a sequence of instance snapshots, in order.
pub open spec fn snapshots_model(snapshots: Seq<InstanceSnapshot>) -> Seq<NodeModel>
    decreases snapshots, 0nat,
{
    if snapshots.len() == 0 {
        Seq::empty()
    } else {
        snapshots_model(snapshots.drop_last()).push(snapshot_model(snapshots.last()))
    }
}

/// The instance tree that a snapshot describes.
pub open spec fn snapshot_model(snapshot: InstanceSnapshot) -> NodeModel
    decreases snapshot, 1nat,
{
    NodeModel {
        id: id_of(snapshot.id),
        name: snapshot.name@,
        class_name: snapshot.class_name@,
        children: snapshots_model(snapshot.children@),
    }
}

impl View for InstanceSnapshot {
    type V = NodeModel;

    open spec fn view(&self) -> NodeModel {
        snapshot_model(*self)
    }
}

impl View for ScriptSnapshot {
    type V = ScriptModel;

    open spec fn view(&self) -> ScriptModel {
        ScriptModel {
            id: id_of(self.id),
            name: self.name@,
            class_name: self.class_name@,
            relative_path: self.relative_path@,
        }
    }
}

proof fn lemma_snapshots_model(snapshots: Seq<InstanceSnapshot>)
    ensures
        snapshots_model(snapshots).len() == snapshots.len(),
        forall|i: int| 0 <= i < snapshots.len() ==> #[trigger] snapshots_model(snapshots)[i] == snapshot_model(snapshots[i]),
    decreases snapshots.len(),
{
    if snapshots.len() > 0 {
        lemma_snapshots_model(snapshots.drop_last());
    }
}

impl InstanceSnapshot {
    /// A snapshot of `node` and its subtree.
    fn from_node(node: &InstanceNode) -> (snapshot: Self)
        ensures
            snapshot@ == node@,
        decreases node@,
    {
        let nodes = node.children();
        let mut children: Vec<InstanceSnapshot> = Vec::new();
        let mut i: usize = 0;
        while i < nodes.len()
            invariant
                i <= nodes@.len(),
                nodes@.len() == node@.children.len(),
                forall|k: int| 0 <= k < nodes@.len() ==> #[trigger] nodes@[k]@ == node@.children[k],
                children@.len() == i,
                forall|k: int| 0 <= k < i ==> #[trigger] children@[k]@ == node@.children[k],
            decreases nodes@.len() - i,
        {
            proof {
                assert(nodes@[i as int]@ == node@.children[i as int]);
                assert(decreases_to!(node@ => node@.children[i as int]));
            }
            children.push(InstanceSnapshot::from_node(&nodes[i]));
            i = i + 1;
        }
        let id: u64 = node.id().value();
        let snapshot = Self {
            id,
            name: String::from_str(node.name()),
            class_name: String::from_str(node.class_name()),
            children,
        };
        proof {
            lemma_snapshots_model(snapshot.children@);
            crate::project_tree::InstanceId::lemma_id_of_view(node@.id);
            assert forall|k: int| 0 <= k < node@.children.len() implies snapshots_model(snapshot.children@)[k] == node@.children[k] by {
                assert(snapshot.children@[k]@ == node@.children[k]);
            }
            assert(snapshots_model(snapshot.children@) =~= node@.children);
        }
        snapshot
    }
}

impl ScriptSnapshot {
    /// A snapshot of `script`.
    pub fn from(script: &ScriptDocument) -> (snapshot: Self)
        ensures
            snapshot@ == script@,
    {
        let snapshot = Self {
            id: script.id.value(),
            name: script.name.clone(),
            class_name: script.class_name.clone(),
            relative_path: script.relative_path.clone(),
        };
        proof {
            crate::project_tree::InstanceId::lemma_id_of_view(script.id);
        }
        snapshot
    }
}

impl ProjectSnapshot {
    /// A snapshot of `project`: its name, project file, tree and scripts.
    pub fn from(project: &LoadedProject) -> (snapshot: Self)
        ensures
            snapshot.name@ == project.name@,
            snapshot.project_file@ == project.project_file@,
            snapshot.root@ == project.tree@,
            snapshot.scripts@.map_values(|s: ScriptSnapshot| s@) == scripts_model(project.scripts@),
    {
        let mut scripts: Vec<ScriptSnapshot> = Vec::new();
        let mut i: usize = 0;
        while i < project.scripts.len()
            invariant
                i <= project.scripts@.len(),
                scripts@.len() == i,
                forall|k: int| 0 <= k < i ==> #[trigger] scripts@[k]@ == project.scripts@[k]@,
            decreases project.scripts@.len() - i,
        {
            scripts.push(ScriptSnapshot::from(&project.scripts[i]));
            i = i + 1;
        }
        proof {
            assert(scripts@.map_values(|s: ScriptSnapshot| s@) =~= scripts_model(project.scripts@));
        }
        Self {
            name: project.name.clone(),
            project_file: project.project_file.clone(),
            root: InstanceSnapshot::from_node(project.tree.root()),
            scripts,
        }
    }
}

} // verus!
