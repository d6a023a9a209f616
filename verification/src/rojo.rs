use vstd::prelude::*;
use vstd::string::StringExecFns;
use vstd::utf8::{decode_utf8, encode_utf8, valid_utf8};

use crate::paths::{join_path, joined_path, path_relative_to, relative_path};
use crate::project_tree::{
    id_of, InstanceId, InstanceNode, NodeModel, ProjectTree, ProjectTreeError,
};
use crate::text::{decode_utf8_bytes, decode_utf8_lossy, lossy_utf8};

verus! {

/// Why loading a project failed. Paths are held as display text; the
/// causes of read and parse failures as the text that describes them.
#[derive(Debug, PartialEq, Eq)]
pub enum ProjectError {
    ProjectFileNotFound(String),
    Read { path: String, source: String },
    Parse { path: String, source: String },
    ExpectedDirectory(String),
    PathOutsideProject(String),
    UnsupportedScriptLayout(String),
    Tree(ProjectTreeError),
}

/// Mathematical model of a [`ProjectError`].
pub ghost enum ErrorModel {
    ProjectFileNotFound(Seq<char>),
    Read { path: Seq<char>, source: Seq<char> },
    Parse { path: Seq<char>, source: Seq<char> },
    ExpectedDirectory(Seq<char>),
    PathOutsideProject(Seq<char>),
    UnsupportedScriptLayout(Seq<char>),
    Tree(ProjectTreeError),
}

impl View for ProjectError {
    type V = ErrorModel;

    open spec fn view(&self) -> ErrorModel {
        match self {
            ProjectError::ProjectFileNotFound(p) => ErrorModel::ProjectFileNotFound(p@),
            ProjectError::Read { path, source } => ErrorModel::Read { path: path@, source: source@ },
            ProjectError::Parse { path, source } => ErrorModel::Parse { path: path@, source: source@ },
            ProjectError::ExpectedDirectory(p) => ErrorModel::ExpectedDirectory(p@),
            ProjectError::PathOutsideProject(p) => ErrorModel::PathOutsideProject(p@),
            ProjectError::UnsupportedScriptLayout(p) => ErrorModel::UnsupportedScriptLayout(p@),
            ProjectError::Tree(e) => ErrorModel::Tree(*e),
        }
    }
}

impl ErrorModel {
    /// The text that describes the error.
    pub open spec fn message(self) -> Seq<char> {
        match self {
            ErrorModel::ProjectFileNotFound(p) => "project file not found: "@ + p,
            ErrorModel::Read { path, source } => "failed to read "@ + path + ": "@ + source,
            ErrorModel::Parse { path, source } => "failed to parse "@ + path + ": "@ + source,
            ErrorModel::ExpectedDirectory(p) => "expected a directory at "@ + p,
            ErrorModel::PathOutsideProject(p) => "path is outside the project root: "@ + p,
            ErrorModel::UnsupportedScriptLayout(p) => "init scripts are not supported yet: "@ + p,
            ErrorModel::Tree(e) => e.message_spec(),
        }
    }
}

fn text_of(prefix: &str, rest: &str) -> (text: String)
    ensures
        text@ == prefix@ + rest@,
{
    let mut text = String::from_str(prefix);
    text.append(rest);
    text
}

impl ProjectError {
    /// The text that describes the error.
    pub fn message(&self) -> (text: String)
        ensures
            text@ == self@.message(),
    {
        match self {
            ProjectError::ProjectFileNotFound(p) => text_of("project file not found: ", p.as_str()),
            ProjectError::Read { path, source } => {
                let mut text = text_of("failed to read ", path.as_str());
                text.append(": ");
                text.append(source.as_str());
                text
            },
            ProjectError::Parse { path, source } => {
                let mut text = text_of("failed to parse ", path.as_str());
                text.append(": ");
                text.append(source.as_str());
                text
            },
            ProjectError::ExpectedDirectory(p) => text_of("expected a directory at ", p.as_str()),
            ProjectError::PathOutsideProject(p) => text_of("path is outside the project root: ", p.as_str()),
            ProjectError::UnsupportedScriptLayout(p) => text_of("init scripts are not supported yet: ", p.as_str()),
            ProjectError::Tree(e) => e.message(),
        }
    }
}

/// A script file found under a directory of the project.
#[derive(Debug, PartialEq, Eq)]
pub struct ScriptDocument {
    pub id: InstanceId,
    pub name: String,
    pub class_name: String,
    /// The file's path relative to the project root, as display text.
    pub relative_path: String,
}

/// Mathematical model of a [`ScriptDocument`].
pub ghost struct ScriptModel {
    pub id: InstanceId,
    pub name: Seq<char>,
    pub class_name: Seq<char>,
    pub relative_path: Seq<char>,
}

impl View for ScriptDocument {
    type V = ScriptModel;

    open spec fn view(&self) -> ScriptModel {
        ScriptModel {
            id: self.id,
            name: self.name@,
            class_name: self.class_name@,
            relative_path: self.relative_path@,
        }
    }
}

pub open spec fn scripts_model(scripts: Seq<ScriptDocument>) -> Seq<ScriptModel> {
    scripts.map_values(|s: ScriptDocument| s@)
}

/// A loaded project: its name, its project file, its instance tree and its scripts.
#[derive(Debug)]
pub struct LoadedProject {
    pub name: String,
    /// The project file's path, as display text.
    pub project_file: String,
    pub tree: ProjectTree,
    pub scripts: Vec<ScriptDocument>,
}

// ---------------------------------------------------------------------------
// Script files

/// The bytes of ".server.lua".
pub open spec fn server_suffix() -> Seq<u8> {
    seq![46u8, 115u8, 101u8, 114u8, 118u8, 101u8, 114u8, 46u8, 108u8, 117u8, 97u8]
}

/// The bytes of ".client.lua".
pub open spec fn client_suffix() -> Seq<u8> {
    seq![46u8, 99u8, 108u8, 105u8, 101u8, 110u8, 116u8, 46u8, 108u8, 117u8, 97u8]
}

/// The bytes of ".lua".
pub open spec fn lua_suffix() -> Seq<u8> {
    seq![46u8, 108u8, 117u8, 97u8]
}

/// The bytes of "init".
pub open spec fn init_stem() -> Seq<u8> {
    seq![105u8, 110u8, 105u8, 116u8]
}

pub open spec fn ends_with(bytes: Seq<u8>, suffix: Seq<u8>) -> bool {
    suffix.len() <= bytes.len() && bytes.subrange(bytes.len() - suffix.len(), bytes.len() as int) == suffix
}

/// The stem of a script file name and the class of the script, by the
/// suffix of the name: ".server.lua", then ".client.lua", then ".lua".
pub open spec fn script_stem(name: Seq<u8>) -> Option<(Seq<u8>, Seq<char>)> {
    if ends_with(name, server_suffix()) {
        Some((name.subrange(0, name.len() - 11), "Script"@))
    } else if ends_with(name, client_suffix()) {
        Some((name.subrange(0, name.len() - 11), "LocalScript"@))
    } else if ends_with(name, lua_suffix()) {
        Some((name.subrange(0, name.len() - 4), "ModuleScript"@))
    } else {
        None
    }
}

/// The script, if any, that the file at `path` named `file_name` holds: its
/// name and class. A name that is not UTF-8, that has no script suffix or
/// whose stem is empty holds none; the stem "init" is refused.
pub open spec fn script_descriptor_spec(path: Seq<char>, file_name: Seq<u8>) -> Result<Option<(Seq<char>, Seq<char>)>, ErrorModel> {
    if !valid_utf8(file_name) {
        Ok(None)
    } else {
        match script_stem(file_name) {
            None => Ok(None),
            Some((stem, class_name)) => if stem == init_stem() {
                Err(ErrorModel::UnsupportedScriptLayout(path))
            } else if stem.len() == 0 {
                Ok(None)
            } else {
                Ok(Some((decode_utf8(stem), class_name)))
            },
        }
    }
}

pub open spec fn descriptor_view(r: Result<Option<(String, &'static str)>, ProjectError>) -> Result<Option<(Seq<char>, Seq<char>)>, ErrorModel> {
    match r {
        Ok(None) => Ok(None),
        Ok(Some((name, class_name))) => Ok(Some((name@, class_name@))),
        Err(e) => Err(e@),
    }
}

fn bytes_end_with(bytes: &[u8], suffix: &[u8]) -> (r: bool)
    ensures
        r == ends_with(bytes@, suffix@),
{
    if suffix.len() > bytes.len() {
        return false;
    }
    let start: usize = bytes.len() - suffix.len();
    let mut i: usize = 0;
    while i < suffix.len()
        invariant
            start + suffix@.len() == bytes.len(),
            i <= suffix@.len(),
            forall|k: int| 0 <= k < i ==> bytes@[start + k] == suffix@[k],
        decreases suffix@.len() - i,
    {
        if bytes[start + i] != suffix[i] {
            proof {
                assert(bytes@.subrange(start as int, bytes@.len() as int)[i as int] != suffix@[i as int]);
            }
            return false;
        }
        i = i + 1;
    }
    proof {
        assert(bytes@.subrange(start as int, bytes@.len() as int) =~= suffix@);
    }
    true
}

fn bytes_equal(a: &[u8], b: &[u8]) -> (r: bool)
    ensures
        r == (a@ == b@),
{
    if a.len() != b.len() {
        return false;
    }
    let mut i: usize = 0;
    while i < a.len()
        invariant
            a@.len() == b@.len(),
            i <= a@.len(),
            forall|k: int| 0 <= k < i ==> a@[k] == b@[k],
        decreases a@.len() - i,
    {
        if a[i] != b[i] {
            return false;
        }
        i = i + 1;
    }
    proof {
        assert(a@ =~= b@);
    }
    true
}

proof fn lemma_stem_valid(name: Seq<u8>, suffix: Seq<u8>)
    requires
        valid_utf8(name),
        ends_with(name, suffix),
        suffix.len() > 0,
        suffix[0] == 46u8,
    ensures
        valid_utf8(name.subrange(0, name.len() - suffix.len())),
{
    let idx: int = name.len() - suffix.len();
    if idx < name.len() {
        assert(name[idx] == name.subrange(idx, name.len() as int)[0]);
        vstd::utf8::is_char_boundary_iff_not_is_continuation_byte(name, idx);
    } else {
        vstd::utf8::is_char_boundary_start_end_of_seq(name);
    }
    vstd::utf8::valid_utf8_split(name, idx);
}

/// The script, if any, held by the file at `path` whose name is `file_name`.
pub fn script_descriptor(path: &str, file_name: &[u8]) -> (r: Result<Option<(String, &'static str)>, ProjectError>)
    ensures
        descriptor_view(r) == script_descriptor_spec(path@, file_name@),
{
    if decode_utf8_bytes(file_name).is_none() {
        return Ok(None);
    }
    let server: [u8; 11] = [46u8, 115u8, 101u8, 114u8, 118u8, 101u8, 114u8, 46u8, 108u8, 117u8, 97u8];
    let client: [u8; 11] = [46u8, 99u8, 108u8, 105u8, 101u8, 110u8, 116u8, 46u8, 108u8, 117u8, 97u8];
    let lua: [u8; 4] = [46u8, 108u8, 117u8, 97u8];
    let init: [u8; 4] = [105u8, 110u8, 105u8, 116u8];
    proof {
        assert(server@ =~= server_suffix());
        assert(client@ =~= client_suffix());
        assert(lua@ =~= lua_suffix());
        assert(init@ =~= init_stem());
        reveal_strlit("Script");
        reveal_strlit("LocalScript");
        reveal_strlit("ModuleScript");
    }
    let (stem_len, class_name): (usize, &'static str) = if bytes_end_with(file_name, server.as_slice()) {
        proof { lemma_stem_valid(file_name@, server_suffix()); }
        (file_name.len() - 11, "Script")
    } else if bytes_end_with(file_name, client.as_slice()) {
        proof { lemma_stem_valid(file_name@, client_suffix()); }
        (file_name.len() - 11, "LocalScript")
    } else if bytes_end_with(file_name, lua.as_slice()) {
        proof { lemma_stem_valid(file_name@, lua_suffix()); }
        (file_name.len() - 4, "ModuleScript")
    } else {
        return Ok(None);
    };
    let stem = file_name.split_at(stem_len).0;
    if bytes_equal(stem, init.as_slice()) {
        return Err(ProjectError::UnsupportedScriptLayout(String::from_str(path)));
    }
    if stem_len == 0 {
        return Ok(None);
    }
    match decode_utf8_bytes(stem) {
        Some(name) => Ok(Some((name, class_name))),
        None => Ok(None),
    }
}

} // verus!

verus! {

// ---------------------------------------------------------------------------
// Directories read from disk

/// What reading a directory gave.
#[derive(Debug)]
pub enum DirectoryScan {
    /// Reading the directory's metadata or its list of entries failed; the
    /// text describes why.
    Unreadable(String),
    /// The path exists but is not a directory.
    NotDirectory,
    /// The directory's entries, in the order in which they were listed.
    Entries(Vec<ScannedEntry>),
}

/// One entry of a directory.
#[derive(Debug)]
pub struct ScannedEntry {
    /// The entry's full path, as display text.
    pub path: String,
    /// The entry's file name, as raw bytes.
    pub file_name: Vec<u8>,
    pub kind: EntryKind,
}

/// What an entry of a directory is, by its own metadata (links are not followed).
#[derive(Debug)]
pub enum EntryKind {
    /// Reading the entry's metadata failed; the text describes why.
    Unreadable(String),
    /// A directory, and what reading it gave.
    Directory(DirectoryScan),
    File,
    Other,
}

/// Lexicographic order on byte strings: `a` sorts strictly before `b`.
pub open spec fn bytes_lt(a: Seq<u8>, b: Seq<u8>) -> bool
    decreases a.len(),
{
    if a.len() == 0 {
        b.len() > 0
    } else if b.len() == 0 {
        false
    } else if a[0] != b[0] {
        a[0] < b[0]
    } else {
        bytes_lt(a.drop_first(), b.drop_first())
    }
}

proof fn lemma_bytes_lt_skip(a: Seq<u8>, b: Seq<u8>, i: int)
    requires
        0 <= i < a.len(),
        i < b.len(),
        a[i] == b[i],
    ensures
        bytes_lt(a.skip(i), b.skip(i)) == bytes_lt(a.skip(i + 1), b.skip(i + 1)),
{
    assert(a.skip(i).drop_first() =~= a.skip(i + 1));
    assert(b.skip(i).drop_first() =~= b.skip(i + 1));
}

fn bytes_less(a: &[u8], b: &[u8]) -> (r: bool)
    ensures
        r == bytes_lt(a@, b@),
{
    let mut i: usize = 0;
    proof {
        assert(a@.skip(0) =~= a@);
        assert(b@.skip(0) =~= b@);
    }
    while i < a.len() && i < b.len() && a[i] == b[i]
        invariant
            i <= a@.len(),
            i <= b@.len(),
            bytes_lt(a@, b@) == bytes_lt(a@.skip(i as int), b@.skip(i as int)),
        decreases a@.len() - i,
    {
        proof {
            lemma_bytes_lt_skip(a@, b@, i as int);
        }
        i = i + 1;
    }
    if i < a.len() && i < b.len() {
        proof {
            assert(a@.skip(i as int)[0] == a@[i as int]);
            assert(b@.skip(i as int)[0] == b@[i as int]);
        }
        a[i] < b[i]
    } else {
        i == a.len() && i < b.len()
    }
}

/// Where entry `k` goes among the entries listed by `order`, looking from
/// position `j`: before the first entry whose name sorts after its own.
pub open spec fn insert_position(es: Seq<ScannedEntry>, order: Seq<int>, k: int, j: int) -> int
    decreases order.len() - j,
{
    if j >= order.len() || j < 0 {
        order.len() as int
    } else if bytes_lt(es[k].file_name@, es[order[j]].file_name@) {
        j
    } else {
        insert_position(es, order, k, j + 1)
    }
}

/// The indices of the first `n` entries, sorted by file name; entries with
/// equal names keep their listed order.
pub open spec fn name_order(es: Seq<ScannedEntry>, n: nat) -> Seq<int>
    decreases n,
{
    if n == 0 {
        Seq::empty()
    } else {
        let order = name_order(es, (n - 1) as nat);
        order.insert(insert_position(es, order, n - 1, 0), n - 1)
    }
}

proof fn lemma_insert_position_bounds(es: Seq<ScannedEntry>, order: Seq<int>, k: int, j: int)
    requires
        0 <= j <= order.len(),
    ensures
        j <= insert_position(es, order, k, j) <= order.len(),
    decreases order.len() - j,
{
    if j < order.len() && !bytes_lt(es[k].file_name@, es[order[j]].file_name@) {
        lemma_insert_position_bounds(es, order, k, j + 1);
    }
}

/// The file-name order lists each of the first `n` entries exactly once.
pub proof fn lemma_name_order_shape(es: Seq<ScannedEntry>, n: nat)
    ensures
        name_order(es, n).len() == n,
        forall|i: int| 0 <= i < n ==> 0 <= #[trigger] name_order(es, n)[i] < n,
        name_order(es, n).no_duplicates(),
    decreases n,
{
    if n > 0 {
        let order = name_order(es, (n - 1) as nat);
        lemma_name_order_shape(es, (n - 1) as nat);
        lemma_insert_position_bounds(es, order, n - 1, 0);
        let p = insert_position(es, order, n - 1, 0);
        let next = name_order(es, n);
        assert(next == order.insert(p, n - 1));
        assert forall|i: int| 0 <= i < n implies 0 <= #[trigger] next[i] < n by {
            if i < p {
                assert(next[i] == order[i]);
            } else if i > p {
                assert(next[i] == order[i - 1]);
            }
        }
        assert forall|i: int, j: int| 0 <= i < next.len() && 0 <= j < next.len() && i != j implies next[i] != next[j] by {
            if i != p && j != p {
                let oi = if i < p { i } else { i - 1 };
                let oj = if j < p { j } else { j - 1 };
                assert(next[i] == order[oi] && next[j] == order[oj]);
            } else if i == p {
                let oj = if j < p { j } else { j - 1 };
                assert(next[j] == order[oj]);
            } else {
                let oi = if i < p { i } else { i - 1 };
                assert(next[i] == order[oi]);
            }
        }
    }
}

/// The indices of `entries` sorted by file name.
fn name_order_of(entries: &Vec<ScannedEntry>) -> (order: Vec<usize>)
    ensures
        order@.len() == entries@.len(),
        forall|i: int| 0 <= i < order@.len() ==> #[trigger] order@[i] as int == name_order(entries@, entries@.len())[i],
{
    let mut order: Vec<usize> = Vec::new();
    let mut k: usize = 0;
    while k < entries.len()
        invariant
            k <= entries@.len(),
            order@.len() == k,
            forall|i: int| 0 <= i < k ==> #[trigger] order@[i] as int == name_order(entries@, k as nat)[i],
        decreases entries@.len() - k,
    {
        let ghost spec_order = name_order(entries@, k as nat);
        proof {
            lemma_name_order_shape(entries@, k as nat);
        }
        let mut j: usize = 0;
        while j < order.len() && !bytes_less(entries[k].file_name.as_slice(), entries[order[j]].file_name.as_slice())
            invariant
                k < entries@.len(),
                j <= order@.len(),
                order@.len() == k,
                spec_order.len() == k,
                forall|i: int| 0 <= i < k ==> #[trigger] order@[i] as int == spec_order[i],
                forall|i: int| 0 <= i < k ==> 0 <= #[trigger] spec_order[i] < k,
                insert_position(entries@, spec_order, k as int, 0) == insert_position(entries@, spec_order, k as int, j as int),
            decreases order@.len() - j,
        {
            proof {
                assert(order@[j as int] as int == spec_order[j as int]);
            }
            j = j + 1;
        }
        proof {
            if j < order@.len() {
                assert(order@[j as int] as int == spec_order[j as int]);
            }
            assert(insert_position(entries@, spec_order, k as int, j as int) == j);
        }
        let ghost prev = order@;
        order.insert(j, k);
        proof {
            let next = name_order(entries@, (k + 1) as nat);
            assert(next == spec_order.insert(j as int, k as int));
            assert forall|i: int| 0 <= i < k + 1 implies #[trigger] order@[i] as int == next[i] by {
                if i < j {
                    assert(order@[i] == prev[i]);
                } else if i > j {
                    assert(order@[i] == prev[i - 1]);
                }
            }
        }
        k = k + 1;
    }
    order
}

} // verus!

verus! {

// ---------------------------------------------------------------------------
// Building instances from directories

/// The state that building threads through: the next id to hand out and the
/// scripts found so far.
pub ghost struct BuildState {
    pub next_id: nat,
    pub scripts: Seq<ScriptModel>,
}

/// `n` with `extra` appended to its children.
pub open spec fn with_children(n: NodeModel, extra: Seq<NodeModel>) -> NodeModel {
    NodeModel { children: n.children + extra, ..n }
}

/// The instances that the entries of a directory read as `scan` add to the
/// directory's node, visiting entries in file-name order; and the state after.
pub open spec fn scan_children(root: Seq<char>, st: BuildState, dir: Seq<char>, scan: DirectoryScan) -> (BuildState, Result<Seq<NodeModel>, ErrorModel>)
    decreases scan, 0nat,
{
    match scan {
        DirectoryScan::Unreadable(message) => (st, Err(ErrorModel::Read { path: dir, source: message@ })),
        DirectoryScan::NotDirectory => (st, Err(ErrorModel::ExpectedDirectory(dir))),
        DirectoryScan::Entries(entries) => entries_children(
            root,
            st,
            entries@,
            name_order(entries@, entries@.len()),
            entries@.len(),
        ),
    }
}

/// The instances added by the first `n` entries of `es` in the order `order`.
pub open spec fn entries_children(root: Seq<char>, st: BuildState, es: Seq<ScannedEntry>, order: Seq<int>, n: nat) -> (BuildState, Result<Seq<NodeModel>, ErrorModel>)
    decreases es, n,
{
    if n == 0 {
        (st, Ok(Seq::empty()))
    } else {
        let (st1, r1) = entries_children(root, st, es, order, (n - 1) as nat);
        match r1 {
            Err(e) => (st1, Err(e)),
            Ok(done) => {
                let k = order[n - 1];
                if 0 <= k < es.len() {
                    let (st2, r2) = entry_nodes(root, st1, es[k]);
                    match r2 {
                        Err(e) => (st2, Err(e)),
                        Ok(nodes) => (st2, Ok(done + nodes)),
                    }
                } else {
                    (st1, Ok(done))
                }
            },
        }
    }
}

/// The instances that one directory entry adds: a "Folder" for a directory,
/// with what its own entries add; an instance and a script for a script
/// file; nothing for anything else.
pub open spec fn entry_nodes(root: Seq<char>, st: BuildState, e: ScannedEntry) -> (BuildState, Result<Seq<NodeModel>, ErrorModel>)
    decreases e, 0nat,
{
    match e.kind {
        EntryKind::Unreadable(message) => (st, Err(ErrorModel::Read { path: e.path@, source: message@ })),
        EntryKind::Directory(sub) => {
            let id = st.next_id;
            let (st2, r) = scan_children(root, BuildState { next_id: id + 1, ..st }, e.path@, sub);
            match r {
                Err(x) => (st2, Err(x)),
                Ok(kids) => (st2, Ok(seq![NodeModel {
                    id: id_of(id as u64),
                    name: lossy_utf8(e.file_name@),
                    class_name: "Folder"@,
                    children: kids,
                }])),
            }
        },
        EntryKind::File => match script_descriptor_spec(e.path@, e.file_name@) {
            Err(x) => (st, Err(x)),
            Ok(None) => (st, Ok(Seq::empty())),
            Ok(Some((name, class_name))) => {
                let id = st.next_id;
                match path_relative_to(e.path@, root) {
                    None => (BuildState { next_id: id + 1, ..st }, Err(ErrorModel::PathOutsideProject(e.path@))),
                    Some(rel) => (
                        BuildState {
                            next_id: id + 1,
                            scripts: st.scripts.push(ScriptModel {
                                id: id_of(id as u64),
                                name,
                                class_name,
                                relative_path: rel,
                            }),
                        },
                        Ok(seq![NodeModel { id: id_of(id as u64), name, class_name, children: Seq::empty() }]),
                    ),
                }
            },
        },
        EntryKind::Other => (st, Ok(Seq::empty())),
    }
}

/// The number of entries under a directory scan, at any depth.
pub open spec fn scan_size(scan: DirectoryScan) -> nat
    decreases scan, 1nat,
{
    match scan {
        DirectoryScan::Entries(entries) => entries_size(entries@, entries@.len()),
        _ => 0,
    }
}

/// The number of entries, at any depth, under the first `n` entries of `es`.
pub open spec fn entries_size(es: Seq<ScannedEntry>, n: nat) -> nat
    decreases es, n,
{
    if n == 0 || n > es.len() {
        0
    } else {
        entries_size(es, (n - 1) as nat) + entry_size(es[n - 1])
    }
}

pub open spec fn entry_size(e: ScannedEntry) -> nat
    decreases e, 0nat,
{
    1 + match e.kind {
        EntryKind::Directory(sub) => scan_size(sub),
        _ => 0,
    }
}

/// The number of entries, at any depth, under the entries at the first `n`
/// positions of `order`.
pub open spec fn order_size(es: Seq<ScannedEntry>, order: Seq<int>, n: nat) -> nat
    decreases n,
{
    if n == 0 {
        0
    } else {
        order_size(es, order, (n - 1) as nat) + (if 0 <= order[n - 1] < es.len() {
            entry_size(es[order[n - 1]])
        } else {
            0
        })
    }
}

proof fn lemma_order_size_prefix(es: Seq<ScannedEntry>, a: Seq<int>, b: Seq<int>, n: nat)
    requires
        n <= a.len(),
        n <= b.len(),
        forall|i: int| 0 <= i < n ==> a[i] == b[i],
    ensures
        order_size(es, a, n) == order_size(es, b, n),
    decreases n,
{
    if n > 0 {
        lemma_order_size_prefix(es, a, b, (n - 1) as nat);
    }
}

proof fn lemma_order_size_insert(es: Seq<ScannedEntry>, order: Seq<int>, p: int, k: int)
    requires
        0 <= p <= order.len(),
        0 <= k < es.len(),
    ensures
        order_size(es, order.insert(p, k), order.len() + 1) == order_size(es, order, order.len()) + entry_size(es[k]),
    decreases order.len(),
{
    let m = order.len();
    let ins = order.insert(p, k);
    if p == m {
        lemma_order_size_prefix(es, ins, order, m);
    } else {
        let shorter = order.take(m - 1);
        lemma_order_size_insert(es, shorter, p, k);
        lemma_order_size_prefix(es, ins, shorter.insert(p, k), m);
        lemma_order_size_prefix(es, order, shorter, (m - 1) as nat);
        assert(ins[m as int] == order[m - 1]);
    }
}

proof fn lemma_name_order_size(es: Seq<ScannedEntry>, n: nat)
    requires
        n <= es.len(),
    ensures
        order_size(es, name_order(es, n), n) == entries_size(es, n),
    decreases n,
{
    if n > 0 {
        let order = name_order(es, (n - 1) as nat);
        lemma_name_order_size(es, (n - 1) as nat);
        lemma_name_order_shape(es, (n - 1) as nat);
        lemma_insert_position_bounds(es, order, n - 1, 0);
        lemma_order_size_insert(es, order, insert_position(es, order, n - 1, 0), n - 1);
    }
}

proof fn lemma_order_size_monotone(es: Seq<ScannedEntry>, order: Seq<int>, a: nat, b: nat)
    requires
        a <= b,
    ensures
        order_size(es, order, a) <= order_size(es, order, b),
    decreases b,
{
    if a < b {
        lemma_order_size_monotone(es, order, a, (b - 1) as nat);
    }
}

} // verus!

verus! {

/// Builds instances, handing out ids in order and collecting the scripts it finds.
struct ProjectBuilder {
    project_root: String,
    next_id: u64,
    scripts: Vec<ScriptDocument>,
}

impl ProjectBuilder {
    spec fn state(&self) -> BuildState {
        BuildState { next_id: self.next_id as nat, scripts: scripts_model(self.scripts@) }
    }

    spec fn root_text(&self) -> Seq<char> {
        self.project_root@
    }

    fn new(project_root: String) -> (builder: Self)
        ensures
            builder.root_text() == project_root@,
            builder.state() == (BuildState { next_id: 1, scripts: Seq::empty() }),
    {
        let builder = Self { project_root, next_id: 1, scripts: Vec::new() };
        proof {
            assert(scripts_model(builder.scripts@) =~= Seq::<ScriptModel>::empty());
        }
        builder
    }

    /// Hands out the next id.
    fn next_id(&mut self) -> (id: InstanceId)
        requires
            old(self).next_id < u64::MAX,
        ensures
            id == id_of(old(self).next_id),
            final(self).next_id == old(self).next_id + 1,
            final(self).scripts@ == old(self).scripts@,
            final(self).project_root@ == old(self).project_root@,
    {
        let id = InstanceId::new(self.next_id);
        self.next_id = self.next_id + 1;
        id
    }

    fn add_entry(&mut self, parent: &mut InstanceNode, entry: &ScannedEntry) -> (r: Result<(), ProjectError>)
        requires
            old(self).next_id + entry_size(*entry) <= u64::MAX,
        ensures
            final(self).root_text() == old(self).root_text(),
            final(self).state() == entry_nodes(old(self).root_text(), old(self).state(), *entry).0,
            final(self).next_id <= old(self).next_id + entry_size(*entry),
            match entry_nodes(old(self).root_text(), old(self).state(), *entry).1 {
                Ok(nodes) => r is Ok && final(parent)@ == with_children(old(parent)@, nodes),
                Err(e) => r matches Err(x) && x@ == e,
            },
        decreases *entry, 0nat,
    {
        let ghost root = self.root_text();
        let ghost st = self.state();
        proof {
            reveal_strlit("Folder");
        }
        match &entry.kind {
            EntryKind::Unreadable(message) => {
                Err(ProjectError::Read { path: entry.path.clone(), source: message.clone() })
            },
            EntryKind::Directory(sub) => {
                let name = decode_utf8_lossy(entry.file_name.as_slice());
                let id = self.next_id();
                let mut folder = InstanceNode::new(id, name.as_str(), "Folder");
                proof {
                    assert(decreases_to!(*entry => entry.kind));
                }
                match self.add_filesystem_children(&mut folder, entry.path.as_str(), sub) {
                    Err(e) => Err(e),
                    Ok(()) => {
                        let ghost folder_model = folder@;
                        parent.add_child(folder);
                        proof {
                            assert(folder_model.children =~= Seq::<NodeModel>::empty() + scan_children(root, BuildState { next_id: st.next_id + 1, ..st }, entry.path@, *sub).1->Ok_0);
                            assert(final(parent)@ == with_children(old(parent)@, seq![folder_model])) by {
                                assert(old(parent)@.children.push(folder_model) =~= old(parent)@.children + seq![folder_model]);
                            }
                        }
                        Ok(())
                    },
                }
            },
            EntryKind::File => {
                match script_descriptor(entry.path.as_str(), entry.file_name.as_slice()) {
                    Err(e) => Err(e),
                    Ok(None) => {
                        proof {
                            assert(old(parent)@.children + Seq::<NodeModel>::empty() =~= old(parent)@.children);
                        }
                        Ok(())
                    },
                    Ok(Some((name, class_name))) => {
                        let id = self.next_id();
                        let node = InstanceNode::new(id, name.as_str(), class_name);
                        let ghost node_model = node@;
                        parent.add_child(node);
                        match relative_path(entry.path.as_str(), self.project_root.as_str()) {
                            None => Err(ProjectError::PathOutsideProject(entry.path.clone())),
                            Some(rel) => {
                                let script = ScriptDocument {
                                    id,
                                    name,
                                    class_name: String::from_str(class_name),
                                    relative_path: rel,
                                };
                                let ghost script_model = script@;
                                let ghost old_scripts = self.scripts@;
                                self.scripts.push(script);
                                proof {
                                    assert(scripts_model(self.scripts@) =~= scripts_model(old_scripts).push(script_model));
                                    assert(old(parent)@.children.push(node_model) =~= old(parent)@.children + seq![node_model]);
                                }
                                Ok(())
                            },
                        }
                    },
                }
            },
            EntryKind::Other => {
                proof {
                    assert(old(parent)@.children + Seq::<NodeModel>::empty() =~= old(parent)@.children);
                }
                Ok(())
            },
        }
    }

    /// Adds to `parent` the instances for the entries of the directory at
    /// `directory`, read as `scan`, visiting entries in file-name order.
    fn add_filesystem_children(&mut self, parent: &mut InstanceNode, directory: &str, scan: &DirectoryScan) -> (r: Result<(), ProjectError>)
        requires
            old(self).next_id + scan_size(*scan) <= u64::MAX,
        ensures
            final(self).root_text() == old(self).root_text(),
            final(self).state() == scan_children(old(self).root_text(), old(self).state(), directory@, *scan).0,
            final(self).next_id <= old(self).next_id + scan_size(*scan),
            match scan_children(old(self).root_text(), old(self).state(), directory@, *scan).1 {
                Ok(nodes) => r is Ok && final(parent)@ == with_children(old(parent)@, nodes),
                Err(e) => r matches Err(x) && x@ == e,
            },
            !(*scan is Entries) ==> final(parent)@ == old(parent)@,
        decreases *scan, 1nat,
    {
        match scan {
            DirectoryScan::Unreadable(message) => {
                Err(ProjectError::Read { path: String::from_str(directory), source: message.clone() })
            },
            DirectoryScan::NotDirectory => {
                Err(ProjectError::ExpectedDirectory(String::from_str(directory)))
            },
            DirectoryScan::Entries(entries) => {
                let ghost root = self.root_text();
                let ghost st0 = self.state();
                let ghost es = entries@;
                let ghost spec_order = name_order(es, es.len());
                let order = name_order_of(entries);
                proof {
                    lemma_name_order_shape(es, es.len());
                    lemma_name_order_size(es, es.len());
                    assert(old(parent)@.children + Seq::<NodeModel>::empty() =~= old(parent)@.children);
                }
                let mut j: usize = 0;
                while j < order.len()
                    invariant
                        es == entries@,
                        spec_order == name_order(es, es.len()),
                        order@.len() == es.len(),
                        spec_order.len() == es.len(),
                        forall|i: int| 0 <= i < order@.len() ==> #[trigger] order@[i] as int == spec_order[i],
                        forall|i: int| 0 <= i < es.len() ==> 0 <= #[trigger] spec_order[i] < es.len(),
                        order_size(es, spec_order, es.len()) == entries_size(es, es.len()),
                        j <= order@.len(),
                        root == self.root_text(),
                        old(self).root_text() == root,
                        old(self).state() == st0,
                        old(self).next_id + scan_size(*scan) <= u64::MAX,
                        scan_size(*scan) == entries_size(es, es.len()),
                        self.next_id <= old(self).next_id + order_size(es, spec_order, j as nat),
                        entries_children(root, st0, es, spec_order, j as nat).0 == self.state(),
                        entries_children(root, st0, es, spec_order, j as nat).1 is Ok,
                        parent@ == with_children(old(parent)@, entries_children(root, st0, es, spec_order, j as nat).1->Ok_0),
                        *scan == DirectoryScan::Entries(*entries),
                    decreases order@.len() - j,
                {
                    let k: usize = order[j];
                    proof {
                        assert(order@[j as int] as int == spec_order[j as int]);
                        lemma_order_size_monotone(es, spec_order, (j + 1) as nat, es.len());
                        assert(decreases_to!(*scan => entries@[k as int]));
                    }
                    let ghost before = parent@;
                    let ghost done = entries_children(root, st0, es, spec_order, j as nat).1->Ok_0;
                    match self.add_entry(parent, &entries[k]) {
                        Err(e) => {
                            proof {
                                lemma_entries_children_err_stays(root, st0, es, spec_order, (j + 1) as nat, es.len());
                            }
                            return Err(e);
                        },
                        Ok(()) => {
                            proof {
                                let nodes = entry_nodes(root, entries_children(root, st0, es, spec_order, j as nat).0, es[k as int]).1->Ok_0;
                                assert(before.children + nodes + Seq::<NodeModel>::empty() =~= old(parent)@.children + (done + nodes));
                                assert(parent@.children =~= old(parent)@.children + (done + nodes));
                            }
                        },
                    }
                    j = j + 1;
                }
                Ok(())
            },
        }
    }
}

/// Once the entries fail, later entries change nothing.
proof fn lemma_entries_children_err_stays(root: Seq<char>, st: BuildState, es: Seq<ScannedEntry>, order: Seq<int>, n: nat, m: nat)
    requires
        n <= m,
        entries_children(root, st, es, order, n).1 is Err,
    ensures
        entries_children(root, st, es, order, m) == entries_children(root, st, es, order, n),
    decreases m - n,
{
    if n < m {
        lemma_entries_children_err_stays(root, st, es, order, n, (m - 1) as nat);
    }
}

} // verus!

verus! {

// ---------------------------------------------------------------------------
// Project descriptions

/// One child of an instance description: its name and its description.
#[derive(Debug)]
pub struct RawChild {
    pub name: String,
    pub description: RawInstanceDescription,
}

/// An instance as a project file describes it: an optional class name, an
/// optional directory (relative to the project root) whose contents become
/// children, and the named children, in order of their names.
#[derive(Debug)]
pub struct RawInstanceDescription {
    pub class_name: Option<String>,
    pub path: Option<String>,
    pub children: Vec<RawChild>,
}

/// A project file: the project's name and the description of its root instance.
#[derive(Debug)]
pub struct RawProject {
    pub name: String,
    pub tree: RawInstanceDescription,
}

/// The children of every description in the tree of `desc` come in strictly
/// ascending order of their names' UTF-8 bytes, as the keys of the map that a
/// project file is read into do: names are ordered and distinct.
pub open spec fn names_ascending(desc: RawInstanceDescription) -> bool
    decreases desc, 1nat,
{
    children_names_ascending(desc.children@, desc.children@.len())
}

pub open spec fn children_names_ascending(cs: Seq<RawChild>, n: nat) -> bool
    decreases cs, n,
{
    if n == 0 || n > cs.len() {
        true
    } else {
        &&& children_names_ascending(cs, (n - 1) as nat)
        &&& n >= 2 ==> bytes_lt(encode_utf8(cs[n - 2].name@), encode_utf8(cs[n - 1].name@))
        &&& names_ascending(cs[n - 1].description)
    }
}

/// The number of descriptions in the tree of `desc`.
pub open spec fn description_count(desc: RawInstanceDescription) -> nat
    decreases desc, 1nat,
{
    1 + children_description_count(desc.children@, desc.children@.len())
}

pub open spec fn children_description_count(cs: Seq<RawChild>, n: nat) -> nat
    decreases cs, n,
{
    if n == 0 || n > cs.len() {
        0
    } else {
        children_description_count(cs, (n - 1) as nat) + description_count(cs[n - 1].description)
    }
}

/// The number of descriptions in the tree of `desc` that name a directory.
pub open spec fn path_count(desc: RawInstanceDescription) -> nat
    decreases desc, 1nat,
{
    (if desc.path is Some { 1nat } else { 0nat }) + children_path_count(desc.children@, desc.children@.len())
}

pub open spec fn children_path_count(cs: Seq<RawChild>, n: nat) -> nat
    decreases cs, n,
{
    if n == 0 || n > cs.len() {
        0
    } else {
        children_path_count(cs, (n - 1) as nat) + path_count(cs[n - 1].description)
    }
}

/// The number of entries, at any depth, of the scans at positions `a` up to `b`.
pub open spec fn scans_size(scans: Seq<DirectoryScan>, a: int, b: int) -> nat
    decreases b - a,
{
    if b <= a || b > scans.len() || a < 0 {
        0
    } else {
        scans_size(scans, a, b - 1) + scan_size(scans[b - 1])
    }
}

/// The directory that `desc` itself names, joined to `root`, if any.
pub open spec fn own_directory_target(root: Seq<char>, desc: RawInstanceDescription) -> Seq<Seq<char>> {
    match desc.path {
        Some(p) => seq![joined_path(root, p@)],
        None => Seq::empty(),
    }
}

/// The directories that the descriptions in the tree of `desc` name, joined
/// to `root`, in depth-first order: these are read, in this order, for the build.
pub open spec fn directory_targets_spec(root: Seq<char>, desc: RawInstanceDescription) -> Seq<Seq<char>>
    decreases desc, 1nat,
{
    own_directory_target(root, desc) + children_directory_targets(root, desc.children@, desc.children@.len())
}

pub open spec fn children_directory_targets(root: Seq<char>, cs: Seq<RawChild>, n: nat) -> Seq<Seq<char>>
    decreases cs, n,
{
    if n == 0 || n > cs.len() {
        Seq::empty()
    } else {
        children_directory_targets(root, cs, (n - 1) as nat) + directory_targets_spec(root, cs[n - 1].description)
    }
}

/// The instance that `desc`, named `name`, becomes, with `fallback` as its
/// class name where it names none: its id first, then the instances of its
/// directory, if it names one (read as the scan at `cursor`), then its
/// children; the state and the position of the next scan after.
pub open spec fn build_node_spec(
    root: Seq<char>,
    st: BuildState,
    scans: Seq<DirectoryScan>,
    cursor: nat,
    name: Seq<char>,
    desc: RawInstanceDescription,
    fallback: Seq<char>,
) -> (BuildState, nat, Result<NodeModel, ErrorModel>)
    decreases desc, 1nat,
{
    let class_name = match desc.class_name {
        Some(c) => c@,
        None => fallback,
    };
    let id = st.next_id;
    let st1 = BuildState { next_id: id + 1, ..st };
    let node = NodeModel { id: id_of(id as u64), name, class_name, children: Seq::empty() };
    let (st2, cursor2, fs) = match desc.path {
        None => (st1, cursor, Ok(Seq::empty())),
        Some(p) => {
            let (s, r) = scan_children(root, st1, joined_path(root, p@), scans[cursor as int]);
            (s, cursor + 1, r)
        },
    };
    match fs {
        Err(e) => (st2, cursor2, Err(e)),
        Ok(fs_nodes) => {
            let (st3, cursor3, r) = build_children_spec(root, st2, scans, cursor2, desc.children@, desc.children@.len());
            match r {
                Err(e) => (st3, cursor3, Err(e)),
                Ok(kids) => (st3, cursor3, Ok(NodeModel { children: fs_nodes + kids, ..node })),
            }
        },
    }
}

/// `node` with the instances of all of `cs` appended to its children, as
/// building them gives.
pub open spec fn finish_node(
    root: Seq<char>,
    st: BuildState,
    scans: Seq<DirectoryScan>,
    cursor: nat,
    cs: Seq<RawChild>,
    node: NodeModel,
) -> (BuildState, nat, Result<NodeModel, ErrorModel>) {
    let (st3, cursor3, r) = build_children_spec(root, st, scans, cursor, cs, cs.len());
    match r {
        Err(e) => (st3, cursor3, Err(e)),
        Ok(kids) => (st3, cursor3, Ok(NodeModel { children: node.children + kids, ..node })),
    }
}

/// The instances that the first `n` children become, each with "Folder" as
/// the fallback class name.
pub open spec fn build_children_spec(
    root: Seq<char>,
    st: BuildState,
    scans: Seq<DirectoryScan>,
    cursor: nat,
    cs: Seq<RawChild>,
    n: nat,
) -> (BuildState, nat, Result<Seq<NodeModel>, ErrorModel>)
    decreases cs, n,
{
    if n == 0 || n > cs.len() {
        (st, cursor, Ok(Seq::empty()))
    } else {
        let (st1, c1, r1) = build_children_spec(root, st, scans, cursor, cs, (n - 1) as nat);
        match r1 {
            Err(e) => (st1, c1, Err(e)),
            Ok(done) => {
                let (st2, c2, r2) = build_node_spec(root, st1, scans, c1, cs[n - 1].name@, cs[n - 1].description, "Folder"@);
                match r2 {
                    Err(e) => (st2, c2, Err(e)),
                    Ok(node) => (st2, c2, Ok(done.push(node))),
                }
            },
        }
    }
}

proof fn lemma_scans_size_split(scans: Seq<DirectoryScan>, a: int, b: int, c: int)
    requires
        0 <= a <= b <= c <= scans.len(),
    ensures
        scans_size(scans, a, b) + scans_size(scans, b, c) == scans_size(scans, a, c),
    decreases c - b,
{
    if b < c {
        lemma_scans_size_split(scans, a, b, c - 1);
    }
}

proof fn lemma_children_counts_monotone(cs: Seq<RawChild>, a: nat, b: nat)
    requires
        a <= b <= cs.len(),
    ensures
        children_description_count(cs, a) <= children_description_count(cs, b),
        children_path_count(cs, a) <= children_path_count(cs, b),
    decreases b,
{
    if a < b {
        lemma_children_counts_monotone(cs, a, (b - 1) as nat);
    }
}

proof fn lemma_build_children_err_stays(root: Seq<char>, st: BuildState, scans: Seq<DirectoryScan>, cursor: nat, cs: Seq<RawChild>, n: nat, m: nat)
    requires
        n <= m <= cs.len(),
        build_children_spec(root, st, scans, cursor, cs, n).2 is Err,
    ensures
        build_children_spec(root, st, scans, cursor, cs, m) == build_children_spec(root, st, scans, cursor, cs, n),
    decreases m - n,
{
    if n < m {
        lemma_build_children_err_stays(root, st, scans, cursor, cs, n, (m - 1) as nat);
    }
}

fn collect_directory_targets(root: &str, desc: &RawInstanceDescription, out: &mut Vec<String>)
    ensures
        final(out)@.map_values(|s: String| s@) == old(out)@.map_values(|s: String| s@) + directory_targets_spec(root@, *desc),
    decreases *desc, 1nat,
{
    let ghost start = old(out)@.map_values(|s: String| s@);
    match &desc.path {
        Some(p) => {
            let joined = join_path(root, p.as_str());
            out.push(joined);
        },
        None => {},
    }
    let ghost own = own_directory_target(root@, *desc);
    proof {
        assert(out@.map_values(|s: String| s@) =~= start + own);
    }
    let mut i: usize = 0;
    while i < desc.children.len()
        invariant
            i <= desc.children@.len(),
            out@.map_values(|s: String| s@) == start + own + children_directory_targets(root@, desc.children@, i as nat),
        decreases desc.children@.len() - i,
    {
        proof {
            assert(decreases_to!(*desc => desc.children@[i as int].description));
        }
        collect_directory_targets(root, &desc.children[i].description, out);
        proof {
            assert(start + own + children_directory_targets(root@, desc.children@, (i + 1) as nat) =~= start + own + children_directory_targets(root@, desc.children@, i as nat) + directory_targets_spec(root@, desc.children@[i as int].description));
        }
        i = i + 1;
    }
    proof {
        assert(start + own + children_directory_targets(root@, desc.children@, desc.children@.len()) =~= start + directory_targets_spec(root@, *desc));
    }
}

/// The directories that loading `project` under `project_root` reads, in
/// the order in which it reads them: those that its descriptions name,
/// joined to the root, depth-first.
pub fn directory_targets(project_root: &str, project: &RawProject) -> (targets: Vec<String>)
    ensures
        targets@.map_values(|s: String| s@) == directory_targets_spec(project_root@, project.tree),
{
    let mut targets: Vec<String> = Vec::new();
    proof {
        assert(targets@.map_values(|s: String| s@) =~= Seq::<Seq<char>>::empty());
    }
    collect_directory_targets(project_root, &project.tree, &mut targets);
    proof {
        assert(Seq::<Seq<char>>::empty() + directory_targets_spec(project_root@, project.tree) =~= directory_targets_spec(project_root@, project.tree));
    }
    targets
}

} // verus!

verus! {

impl ProjectBuilder {
    /// Builds the instance that `description`, named `name`, becomes; the
    /// directories that the descriptions name are read as `scans`, from
    /// position `cursor` on. Gives the position of the next scan too.
    fn build_node(
        &mut self,
        name: &str,
        description: &RawInstanceDescription,
        fallback_class_name: &str,
        scans: &Vec<DirectoryScan>,
        cursor: usize,
    ) -> (r: (Result<InstanceNode, ProjectError>, usize))
        requires
            cursor + path_count(*description) <= scans@.len(),
            old(self).next_id + description_count(*description) + scans_size(scans@, cursor as int, cursor + path_count(*description)) <= u64::MAX,
        ensures
            final(self).root_text() == old(self).root_text(),
            ({
                let (st, c, res) = build_node_spec(old(self).root_text(), old(self).state(), scans@, cursor as nat, name@, *description, fallback_class_name@);
                &&& final(self).state() == st
                &&& r.1 == c
                &&& match res {
                    Ok(n) => r.0 matches Ok(x) && x@ == n,
                    Err(e) => r.0 matches Err(x) && x@ == e,
                }
            }),
            cursor <= r.1 <= cursor + path_count(*description),
            r.0 is Ok ==> r.1 == cursor + path_count(*description),
            final(self).next_id <= old(self).next_id + description_count(*description) + scans_size(scans@, cursor as int, r.1 as int),
        decreases *description, 1nat,
    {
        let ghost root = self.root_text();
        let ghost st0 = self.state();
        let ghost cs = description.children@;
        // Reading the length tells the verifier that scan positions fit a usize.
        let _scan_count: usize = scans.len();
        let class_name: &str = match &description.class_name {
            Some(c) => c.as_str(),
            None => fallback_class_name,
        };
        let id = self.next_id();
        let mut node = InstanceNode::new(id, name, class_name);
        let ghost next0 = self.next_id;
        let mut pos = cursor;
        let ghost cursor0 = cursor;
        match &description.path {
            Some(relative_path) => {
                let path = join_path(self.project_root.as_str(), relative_path.as_str());
                proof {
                    lemma_children_counts_monotone(cs, 0, cs.len());
                    assert(path_count(*description) == 1 + children_path_count(cs, cs.len()));
                    assert(cursor0 < scans@.len());
                    assert(scans_size(scans@, cursor0 as int, cursor0 as int) == 0);
                    lemma_scans_size_split(scans@, cursor0 as int, cursor0 + 1, cursor0 + path_count(*description));
                    assert(scans_size(scans@, cursor0 as int, cursor0 + 1) == scan_size(scans@[cursor0 as int]));
                }
                match self.add_filesystem_children(&mut node, path.as_str(), &scans[pos]) {
                    Err(e) => {
                        return (Err(e), pos + 1);
                    },
                    Ok(()) => {},
                }
                pos = pos + 1;
            },
            None => {},
        }
        let ghost after_fs = self.state();
        let ghost cursor_fs = pos;
        let ghost node_fs = node@;
        proof {
            assert(scans_size(scans@, cursor0 as int, cursor0 as int) == 0);
            lemma_children_counts_monotone(cs, 0, cs.len());
            assert(node_fs.children + Seq::<NodeModel>::empty() =~= node_fs.children);
            assert(build_node_spec(root, st0, scans@, cursor0 as nat, name@, *description, fallback_class_name@)
                == finish_node(root, after_fs, scans@, cursor_fs as nat, cs, node_fs));
        }
        let mut i: usize = 0;
        while i < description.children.len()
            invariant
                cs == description.children@,
                i <= cs.len(),
                root == self.root_text(),
                old(self).root_text() == root,
                old(self).state() == st0,
                cursor0 + path_count(*description) <= scans@.len(),
                old(self).next_id + description_count(*description) + scans_size(scans@, cursor0 as int, cursor0 + path_count(*description)) <= u64::MAX,
                next0 == old(self).next_id + 1,
                cursor0 == cursor,
                build_node_spec(root, st0, scans@, cursor0 as nat, name@, *description, fallback_class_name@)
                    == finish_node(root, after_fs, scans@, cursor_fs as nat, cs, node_fs),
                cursor_fs == cursor0 + (if description.path is Some { 1nat } else { 0nat }),
                next0 + scans_size(scans@, cursor0 as int, cursor_fs as int) >= after_fs.next_id,
                ({
                    let (st_i, c_i, r_i) = build_children_spec(root, after_fs, scans@, cursor_fs as nat, cs, i as nat);
                    &&& self.state() == st_i
                    &&& pos == c_i
                    &&& r_i is Ok
                    &&& node@ == with_children(node_fs, r_i->Ok_0)
                }),
                pos == cursor_fs + children_path_count(cs, i as nat),
                self.next_id <= next0 + children_description_count(cs, i as nat) + scans_size(scans@, cursor0 as int, pos as int),
            decreases cs.len() - i,
        {
            let ghost c_before = pos;
            let ghost d = cs[i as int].description;
            proof {
                assert(decreases_to!(*description => description.children@[i as int].description));
                lemma_children_counts_monotone(cs, (i + 1) as nat, cs.len());
                lemma_scans_size_split(scans@, cursor0 as int, c_before as int, c_before + path_count(d));
                lemma_scans_size_split(scans@, cursor0 as int, c_before + path_count(d), cursor0 + path_count(*description));
            }
            let (child, next_cursor) = self.build_node(
                description.children[i].name.as_str(),
                &description.children[i].description,
                "Folder",
                scans,
                pos,
            );
            proof {
                reveal_strlit("Folder");
                assert(children_path_count(cs, (i + 1) as nat) == children_path_count(cs, i as nat) + path_count(d));
                assert(path_count(*description) == (if description.path is Some { 1nat } else { 0nat }) + children_path_count(cs, cs.len()));
                lemma_scans_size_split(scans@, cursor0 as int, c_before as int, next_cursor as int);
            }
            pos = next_cursor;
            match child {
                Err(e) => {
                    proof {
                        lemma_build_children_err_stays(root, after_fs, scans@, cursor_fs as nat, cs, (i + 1) as nat, cs.len());
                        lemma_scans_size_split(scans@, cursor0 as int, pos as int, cursor0 + path_count(*description));
                    }
                    return (Err(e), pos);
                },
                Ok(child) => {
                    let ghost before = node@;
                    let ghost done = build_children_spec(root, after_fs, scans@, cursor_fs as nat, cs, i as nat).2->Ok_0;
                    let ghost child_model = child@;
                    node.add_child(child);
                    proof {
                        assert(node@.children =~= node_fs.children + done.push(child_model));
                    }
                },
            }
            i = i + 1;
        }
        proof {
            assert(description_count(*description) == 1 + children_description_count(cs, cs.len()));
        }
        (Ok(node), pos)
    }
}

/// The project that loading gives: the root description, named after the
/// project, with "DataModel" as its fallback class name, becomes the tree;
/// the tree must hold no id twice.
pub open spec fn load_spec(
    project_root: Seq<char>,
    name: Seq<char>,
    tree: RawInstanceDescription,
    scans: Seq<DirectoryScan>,
) -> Result<(NodeModel, Seq<ScriptModel>), ErrorModel> {
    let (st, c, r) = build_node_spec(
        project_root,
        BuildState { next_id: 1, scripts: Seq::empty() },
        scans,
        0,
        name,
        tree,
        "DataModel"@,
    );
    match r {
        Err(e) => Err(e),
        Ok(root) => match crate::project_tree::first_repeat(crate::project_tree::preorder(root)) {
            Some(id) => Err(ErrorModel::Tree(ProjectTreeError::DuplicateInstanceId(id))),
            None => Ok((root, st.scripts)),
        },
    }
}

/// Builds the project described by `project`, whose project file is
/// `project_file` in the directory `project_root`; `scans` are what reading
/// the directories of [`directory_targets`] gave, in that order. The
/// children of each description come in ascending order of their names, as a
/// project file's keys are read.
pub fn build_loaded_project(
    project_file: String,
    project_root: String,
    project: RawProject,
    scans: Vec<DirectoryScan>,
) -> (result: Result<LoadedProject, ProjectError>)
    requires
        names_ascending(project.tree),
        scans@.len() == path_count(project.tree),
        1 + description_count(project.tree) + scans_size(scans@, 0, scans@.len() as int) <= u64::MAX,
    ensures
        match load_spec(project_root@, project.name@, project.tree, scans@) {
            Ok((root, scripts)) => result matches Ok(loaded) && {
                &&& loaded.name@ == project.name@
                &&& loaded.project_file@ == project_file@
                &&& loaded.tree@ == root
                &&& scripts_model(loaded.scripts@) == scripts
            },
            Err(e) => result matches Err(x) && x@ == e,
        },
        !(result matches Err(ProjectError::Tree(_))),
{
    let mut builder = ProjectBuilder::new(project_root);
    proof {
        reveal_strlit("DataModel");
    }
    let ghost st0 = BuildState { next_id: 1, scripts: Seq::empty() };
    let ghost root_text = builder.root_text();
    let (root, _) = builder.build_node(project.name.as_str(), &project.tree, "DataModel", &scans, 0);
    proof {
        lemma_build_node_ids(root_text, st0, scans@, 0, project.name@, project.tree, "DataModel"@);
    }
    let root = match root {
        Ok(root) => root,
        Err(e) => return Err(e),
    };
    proof {
        let ids = crate::project_tree::preorder(root@);
        assert(consecutive_ids(ids, 1, builder.next_id as nat));
        assert forall|i: int, j: int| 0 <= i < ids.len() && 0 <= j < ids.len() && i != j implies ids[i] != ids[j] by {
            crate::project_tree::lemma_id_of_injective((1 + i) as u64, (1 + j) as u64);
        }
        assert(ids.no_duplicates());
        crate::project_tree::lemma_first_repeat_none_iff_no_duplicates(ids);
    }
    let scripts = builder.scripts;
    let tree = match ProjectTree::try_new(root) {
        Ok(tree) => tree,
        Err(e) => {
            return Err(ProjectError::Tree(e));
        },
    };
    proof {
        crate::project_tree::lemma_first_repeat_none_iff_no_duplicates(crate::project_tree::preorder(tree@));
    }
    Ok(LoadedProject { name: project.name, project_file, tree, scripts })
}

} // verus!

verus! {

/// The file that a project path stands for: `default.project.json` inside
/// it where it is a directory, else the path itself.
pub fn project_file_candidate(path: &str, is_dir: bool) -> (candidate: String)
    ensures
        candidate@ == (if is_dir { joined_path(path@, "default.project.json"@) } else { path@ }),
{
    if is_dir {
        join_path(path, "default.project.json")
    } else {
        String::from_str(path)
    }
}

/// The directory that holds the project file: the root that script paths
/// are relative to.
pub fn project_root(project_file: &str) -> (root: Option<String>)
    ensures
        match root {
            Some(r) => crate::paths::path_parent(project_file@) == Some(r@),
            None => crate::paths::path_parent(project_file@) is None,
        },
{
    crate::paths::parent_path(project_file)
}

} // verus!

verus! {

// ---------------------------------------------------------------------------
// Properties of building

/// `ids` are the ids with the values `from`, `from + 1`, ... below `to`.
pub open spec fn consecutive_ids(ids: Seq<InstanceId>, from: nat, to: nat) -> bool {
    &&& from + ids.len() == to
    &&& forall|i: int| 0 <= i < ids.len() ==> #[trigger] ids[i] == id_of((from + i) as u64)
}

proof fn lemma_consecutive_concat(a: Seq<InstanceId>, b: Seq<InstanceId>, x: nat, y: nat, z: nat)
    requires
        consecutive_ids(a, x, y),
        consecutive_ids(b, y, z),
    ensures
        consecutive_ids(a + b, x, z),
{
    assert forall|i: int| 0 <= i < (a + b).len() implies #[trigger] (a + b)[i] == id_of((x + i) as u64) by {
        if i >= a.len() {
            assert(b[i - a.len()] == id_of((y + (i - a.len())) as u64));
        }
    }
}

proof fn lemma_consecutive_empty(x: nat)
    ensures
        consecutive_ids(Seq::empty(), x, x),
{
}

proof fn lemma_node_ids(id: nat, name: Seq<char>, class_name: Seq<char>, kids: Seq<NodeModel>, to: nat)
    requires
        consecutive_ids(crate::project_tree::forest_preorder(kids), id + 1, to),
    ensures
        consecutive_ids(
            crate::project_tree::forest_preorder(seq![NodeModel { id: id_of(id as u64), name, class_name, children: kids }]),
            id,
            to,
        ),
        consecutive_ids(
            crate::project_tree::preorder(NodeModel { id: id_of(id as u64), name, class_name, children: kids }),
            id,
            to,
        ),
{
    let n = NodeModel { id: id_of(id as u64), name, class_name, children: kids };
    crate::project_tree::lemma_forest_preorder_single(n);
    let single = seq![id_of(id as u64)];
    assert(consecutive_ids(single, id, id + 1));
    lemma_consecutive_concat(single, crate::project_tree::forest_preorder(kids), id, id + 1, to);
}

/// The instances that a directory scan adds carry consecutive ids, handed out
/// in depth-first order; reading directories never fails for a repeated id.
pub proof fn lemma_scan_children_ids(root: Seq<char>, st: BuildState, dir: Seq<char>, scan: DirectoryScan)
    ensures
        scan_children(root, st, dir, scan).1 matches Ok(nodes) ==> consecutive_ids(
            crate::project_tree::forest_preorder(nodes),
            st.next_id,
            scan_children(root, st, dir, scan).0.next_id,
        ),
        !(scan_children(root, st, dir, scan).1 matches Err(ErrorModel::Tree(_))),
    decreases scan, 0nat,
{
    match scan {
        DirectoryScan::Entries(entries) => {
            lemma_entries_children_ids(root, st, entries@, name_order(entries@, entries@.len()), entries@.len());
        },
        _ => {},
    }
}

/// The instances that some entries of a directory add carry consecutive ids.
pub proof fn lemma_entries_children_ids(root: Seq<char>, st: BuildState, es: Seq<ScannedEntry>, order: Seq<int>, n: nat)
    ensures
        entries_children(root, st, es, order, n).1 matches Ok(nodes) ==> consecutive_ids(
            crate::project_tree::forest_preorder(nodes),
            st.next_id,
            entries_children(root, st, es, order, n).0.next_id,
        ),
        !(entries_children(root, st, es, order, n).1 matches Err(ErrorModel::Tree(_))),
    decreases es, n,
{
    if n == 0 {
        lemma_consecutive_empty(st.next_id);
    } else {
        lemma_entries_children_ids(root, st, es, order, (n - 1) as nat);
        let (st1, r1) = entries_children(root, st, es, order, (n - 1) as nat);
        if r1 is Ok {
            let done = r1->Ok_0;
            let k = order[n - 1];
            if 0 <= k < es.len() {
                lemma_entry_nodes_ids(root, st1, es[k]);
                let (st2, r2) = entry_nodes(root, st1, es[k]);
                if r2 is Ok {
                    crate::project_tree::lemma_forest_preorder_concat(done, r2->Ok_0);
                    lemma_consecutive_concat(
                        crate::project_tree::forest_preorder(done),
                        crate::project_tree::forest_preorder(r2->Ok_0),
                        st.next_id,
                        st1.next_id,
                        st2.next_id,
                    );
                }
            }
        }
    }
}

/// The instances that one entry adds carry consecutive ids.
pub proof fn lemma_entry_nodes_ids(root: Seq<char>, st: BuildState, e: ScannedEntry)
    ensures
        entry_nodes(root, st, e).1 matches Ok(nodes) ==> consecutive_ids(
            crate::project_tree::forest_preorder(nodes),
            st.next_id,
            entry_nodes(root, st, e).0.next_id,
        ),
        !(entry_nodes(root, st, e).1 matches Err(ErrorModel::Tree(_))),
    decreases e, 0nat,
{
    match e.kind {
        EntryKind::Directory(sub) => {
            let st1 = BuildState { next_id: st.next_id + 1, ..st };
            lemma_scan_children_ids(root, st1, e.path@, sub);
            let (st2, r) = scan_children(root, st1, e.path@, sub);
            if r is Ok {
                lemma_node_ids(st.next_id, lossy_utf8(e.file_name@), "Folder"@, r->Ok_0, st2.next_id);
            }
        },
        EntryKind::File => {
            match script_descriptor_spec(e.path@, e.file_name@) {
                Ok(Some((name, class_name))) => {
                    lemma_consecutive_empty(st.next_id + 1);
                    lemma_node_ids(st.next_id, name, class_name, Seq::empty(), st.next_id + 1);
                },
                _ => {
                    lemma_consecutive_empty(st.next_id);
                },
            }
        },
        _ => {
            lemma_consecutive_empty(st.next_id);
        },
    }
}

/// The instance that a description becomes carries consecutive ids in
/// depth-first order, its own first.
pub proof fn lemma_build_node_ids(
    root: Seq<char>,
    st: BuildState,
    scans: Seq<DirectoryScan>,
    cursor: nat,
    name: Seq<char>,
    desc: RawInstanceDescription,
    fallback: Seq<char>,
)
    ensures
        build_node_spec(root, st, scans, cursor, name, desc, fallback).2 matches Ok(node) ==> consecutive_ids(
            crate::project_tree::preorder(node),
            st.next_id,
            build_node_spec(root, st, scans, cursor, name, desc, fallback).0.next_id,
        ),
        !(build_node_spec(root, st, scans, cursor, name, desc, fallback).2 matches Err(ErrorModel::Tree(_))),
    decreases desc, 1nat,
{
    let id = st.next_id;
    let st1 = BuildState { next_id: id + 1, ..st };
    let (st2, cursor2, fs) = match desc.path {
        None => (st1, cursor, Ok(Seq::<NodeModel>::empty())),
        Some(p) => {
            let (s, r) = scan_children(root, st1, joined_path(root, p@), scans[cursor as int]);
            (s, cursor + 1, r)
        },
    };
    match desc.path {
        None => lemma_consecutive_empty(id + 1),
        Some(p) => lemma_scan_children_ids(root, st1, joined_path(root, p@), scans[cursor as int]),
    }
    if fs is Ok {
        lemma_build_children_ids(root, st2, scans, cursor2, desc.children@, desc.children@.len());
        let (st3, cursor3, r) = build_children_spec(root, st2, scans, cursor2, desc.children@, desc.children@.len());
        if r is Ok {
            let fs_nodes = fs->Ok_0;
            let kids = r->Ok_0;
            crate::project_tree::lemma_forest_preorder_concat(fs_nodes, kids);
            lemma_consecutive_concat(
                crate::project_tree::forest_preorder(fs_nodes),
                crate::project_tree::forest_preorder(kids),
                id + 1,
                st2.next_id,
                st3.next_id,
            );
            let class_name = match desc.class_name {
                Some(c) => c@,
                None => fallback,
            };
            lemma_node_ids(id, name, class_name, fs_nodes + kids, st3.next_id);
        }
    }
}

/// The instances that some children become carry consecutive ids.
pub proof fn lemma_build_children_ids(
    root: Seq<char>,
    st: BuildState,
    scans: Seq<DirectoryScan>,
    cursor: nat,
    cs: Seq<RawChild>,
    n: nat,
)
    ensures
        build_children_spec(root, st, scans, cursor, cs, n).2 matches Ok(nodes) ==> consecutive_ids(
            crate::project_tree::forest_preorder(nodes),
            st.next_id,
            build_children_spec(root, st, scans, cursor, cs, n).0.next_id,
        ),
        !(build_children_spec(root, st, scans, cursor, cs, n).2 matches Err(ErrorModel::Tree(_))),
    decreases cs, n,
{
    if n == 0 || n > cs.len() {
        lemma_consecutive_empty(st.next_id);
    } else {
        lemma_build_children_ids(root, st, scans, cursor, cs, (n - 1) as nat);
        let (st1, c1, r1) = build_children_spec(root, st, scans, cursor, cs, (n - 1) as nat);
        if r1 is Ok {
            let done = r1->Ok_0;
            lemma_build_node_ids(root, st1, scans, c1, cs[n - 1].name@, cs[n - 1].description, "Folder"@);
            let (st2, c2, r2) = build_node_spec(root, st1, scans, c1, cs[n - 1].name@, cs[n - 1].description, "Folder"@);
            if r2 is Ok {
                let node = r2->Ok_0;
                crate::project_tree::lemma_forest_preorder_single(node);
                crate::project_tree::lemma_forest_preorder_concat(done, seq![node]);
                assert(done.push(node) =~= done + seq![node]);
                lemma_consecutive_concat(
                    crate::project_tree::forest_preorder(done),
                    crate::project_tree::preorder(node),
                    st.next_id,
                    st1.next_id,
                    st2.next_id,
                );
            }
        }
    }
}

/// The directories read for a description are as many as the descriptions
/// that name one: reading each target gives the scans that building needs.
pub proof fn lemma_directory_targets_len(root: Seq<char>, desc: RawInstanceDescription)
    ensures
        directory_targets_spec(root, desc).len() == path_count(desc),
    decreases desc, 1nat,
{
    lemma_children_directory_targets_len(root, desc.children@, desc.children@.len());
}

pub proof fn lemma_children_directory_targets_len(root: Seq<char>, cs: Seq<RawChild>, n: nat)
    ensures
        children_directory_targets(root, cs, n).len() == children_path_count(cs, n),
    decreases cs, n,
{
    if n > 0 && n <= cs.len() {
        lemma_children_directory_targets_len(root, cs, (n - 1) as nat);
        lemma_directory_targets_len(root, cs[n - 1].description);
    }
}

/// A loaded project's instances carry the ids 1, 2, 3, ... in depth-first order.
pub proof fn lemma_loaded_ids_consecutive(
    project_root: Seq<char>,
    name: Seq<char>,
    tree: RawInstanceDescription,
    scans: Seq<DirectoryScan>,
)
    ensures
        load_spec(project_root, name, tree, scans) matches Ok((root, _)) ==> consecutive_ids(
            crate::project_tree::preorder(root),
            1,
            1 + crate::project_tree::preorder(root).len(),
        ),
{
    lemma_build_node_ids(project_root, BuildState { next_id: 1, scripts: Seq::empty() }, scans, 0, name, tree, "DataModel"@);
}

} // verus!

verus! {

proof fn lemma_bytes_lt_asymmetric(a: Seq<u8>, b: Seq<u8>)
    ensures
        bytes_lt(a, b) ==> !bytes_lt(b, a),
    decreases a.len(),
{
    if a.len() > 0 && b.len() > 0 && a[0] == b[0] {
        lemma_bytes_lt_asymmetric(a.drop_first(), b.drop_first());
    }
}

proof fn lemma_bytes_lt_transitive(a: Seq<u8>, b: Seq<u8>, c: Seq<u8>)
    ensures
        bytes_lt(a, b) && bytes_lt(b, c) ==> bytes_lt(a, c),
    decreases a.len(),
{
    if a.len() > 0 && b.len() > 0 && c.len() > 0 && a[0] == b[0] && b[0] == c[0] {
        lemma_bytes_lt_transitive(a.drop_first(), b.drop_first(), c.drop_first());
    }
}

/// The name of entry `k` of `es`.
pub open spec fn entry_name(es: Seq<ScannedEntry>, k: int) -> Seq<u8> {
    es[k].file_name@
}

/// `order` lists entries in file-name order: no entry sorts before one listed earlier.
pub open spec fn sorted_by_name(es: Seq<ScannedEntry>, order: Seq<int>) -> bool {
    forall|i: int, j: int| 0 <= i < j < order.len() ==> !bytes_lt(
        #[trigger] entry_name(es, order[j]),
        #[trigger] entry_name(es, order[i]),
    )
}

proof fn lemma_insert_position_facts(es: Seq<ScannedEntry>, order: Seq<int>, k: int, j: int)
    requires
        0 <= j <= order.len(),
    ensures
        forall|q: int| j <= q < insert_position(es, order, k, j) ==> !bytes_lt(entry_name(es, k), #[trigger] entry_name(es, order[q])),
        insert_position(es, order, k, j) < order.len() ==> bytes_lt(
            entry_name(es, k),
            entry_name(es, order[insert_position(es, order, k, j)]),
        ),
    decreases order.len() - j,
{
    if j < order.len() && !bytes_lt(es[k].file_name@, es[order[j]].file_name@) {
        lemma_insert_position_facts(es, order, k, j + 1);
    }
}

/// Entries are visited in file-name order.
pub proof fn lemma_name_order_sorted(es: Seq<ScannedEntry>, n: nat)
    ensures
        sorted_by_name(es, name_order(es, n)),
    decreases n,
{
    if n > 0 {
        let order = name_order(es, (n - 1) as nat);
        lemma_name_order_sorted(es, (n - 1) as nat);
        let k = n - 1;
        lemma_insert_position_bounds(es, order, k, 0);
        lemma_insert_position_facts(es, order, k, 0);
        let p = insert_position(es, order, k, 0);
        let next = order.insert(p, k);
        assert(next == name_order(es, n));
        assert forall|i: int, j: int| 0 <= i < j < next.len() implies !bytes_lt(
            #[trigger] entry_name(es, next[j]),
            #[trigger] entry_name(es, next[i]),
        ) by {
            if j < p {
                assert(next[i] == order[i] && next[j] == order[j]);
            } else if j == p {
                assert(next[i] == order[i]);
            } else if i < p {
                assert(next[i] == order[i] && next[j] == order[j - 1]);
            } else if i == p {
                assert(next[j] == order[j - 1]);
                let m = entry_name(es, order[j - 1]);
                let kp = entry_name(es, order[p]);
                lemma_bytes_lt_asymmetric(m, kp);
                lemma_bytes_lt_transitive(m, entry_name(es, k), kp);
                if j - 1 > p {
                    assert(!bytes_lt(m, kp));
                }
            } else {
                assert(next[i] == order[i - 1] && next[j] == order[j - 1]);
            }
        }
    }
}

} // verus!

verus! {

// ---------------------------------------------------------------------------
// Listing order does not matter

/// No two entries of the listing share a file name.
pub open spec fn distinct_names(l: Seq<ScannedEntry>) -> bool {
    forall|i: int, j: int| 0 <= i < l.len() && 0 <= j < l.len() && i != j ==> #[trigger] entry_name(l, i) != #[trigger] entry_name(l, j)
}

/// `a` and `b` are what reading the same directory gave, each listing at any
/// depth possibly in another order: file names are distinct in each listing.
pub open spec fn same_scan(a: DirectoryScan, b: DirectoryScan) -> bool
    decreases a, 1nat,
{
    match a {
        DirectoryScan::Unreadable(m1) => b matches DirectoryScan::Unreadable(m2) && m1@ == m2@,
        DirectoryScan::NotDirectory => b is NotDirectory,
        DirectoryScan::Entries(l1) => b matches DirectoryScan::Entries(l2) && same_listing(l1@, l2@),
    }
}

/// The two listings hold the same entries, in whatever order.
pub open spec fn same_listing(l1: Seq<ScannedEntry>, l2: Seq<ScannedEntry>) -> bool
    decreases l1, 0nat,
{
    &&& l1.len() == l2.len()
    &&& distinct_names(l1)
    &&& distinct_names(l2)
    &&& forall|i: int| #![trigger l1[i]] 0 <= i < l1.len() ==> exists|j: int| 0 <= j < l2.len() && #[trigger] same_entry(l1[i], l2[j])
    &&& forall|j: int| #![trigger l2[j]] 0 <= j < l2.len() ==> exists|i: int| 0 <= i < l1.len() && #[trigger] same_entry(l1[i], l2[j])
}

/// The two entries are the same: path, name and kind, and for a directory,
/// what reading it gave.
pub open spec fn same_entry(e1: ScannedEntry, e2: ScannedEntry) -> bool
    decreases e1, 0nat,
{
    &&& e1.path@ == e2.path@
    &&& e1.file_name@ == e2.file_name@
    &&& match e1.kind {
        EntryKind::Unreadable(m1) => e2.kind matches EntryKind::Unreadable(m2) && m1@ == m2@,
        EntryKind::Directory(s1) => e2.kind matches EntryKind::Directory(s2) && same_scan(s1, s2),
        EntryKind::File => e2.kind is File,
        EntryKind::Other => e2.kind is Other,
    }
}

} // verus!

verus! {

proof fn lemma_bytes_lt_total(a: Seq<u8>, b: Seq<u8>)
    ensures
        a != b ==> bytes_lt(a, b) || bytes_lt(b, a),
    decreases a.len(),
{
    if a.len() > 0 && b.len() > 0 && a[0] == b[0] {
        lemma_bytes_lt_total(a.drop_first(), b.drop_first());
        if a.drop_first() == b.drop_first() {
            assert(a =~= seq![a[0]] + a.drop_first());
            assert(b =~= seq![b[0]] + b.drop_first());
        }
    } else if a.len() == 0 && b.len() == 0 {
        assert(a =~= b);
    }
}

/// The file-name order lists every one of the first `n` entries.
proof fn lemma_name_order_covers(es: Seq<ScannedEntry>, n: nat, v: int)
    requires
        0 <= v < n,
    ensures
        exists|i: int| 0 <= i < n && name_order(es, n)[i] == v,
    decreases n,
{
    let order = name_order(es, (n - 1) as nat);
    lemma_name_order_shape(es, (n - 1) as nat);
    lemma_insert_position_bounds(es, order, n - 1, 0);
    let p = insert_position(es, order, n - 1, 0);
    let next = name_order(es, n);
    assert(next == order.insert(p, n - 1));
    if v == n - 1 {
        assert(next[p] == v);
    } else {
        lemma_name_order_covers(es, (n - 1) as nat, v);
        let i = choose|i: int| 0 <= i < n - 1 && order[i] == v;
        if i < p {
            assert(next[i] == v);
        } else {
            assert(next[i + 1] == v);
        }
    }
}

/// With distinct names, the file-name order is strictly ascending.
proof fn lemma_name_order_strict(es: Seq<ScannedEntry>, p: int, q: int)
    requires
        distinct_names(es),
        0 <= p < q < es.len(),
    ensures
        bytes_lt(entry_name(es, name_order(es, es.len())[p]), entry_name(es, name_order(es, es.len())[q])),
{
    let o = name_order(es, es.len());
    lemma_name_order_shape(es, es.len());
    lemma_name_order_sorted(es, es.len());
    assert(!bytes_lt(entry_name(es, o[q]), entry_name(es, o[p])));
    assert(o[p] != o[q]);
    assert(entry_name(es, o[p]) != entry_name(es, o[q]));
    lemma_bytes_lt_total(entry_name(es, o[p]), entry_name(es, o[q]));
}

} // verus!

verus! {

/// Two listings of the same entries, each in file-name order, pair up
/// position by position.
proof fn lemma_same_listing_sorted(l1: Seq<ScannedEntry>, l2: Seq<ScannedEntry>, i: int)
    requires
        same_listing(l1, l2),
        0 <= i < l1.len(),
    ensures
        forall|p: int| 0 <= p <= i ==> same_entry(
            #[trigger] l1[name_order(l1, l1.len())[p]],
            l2[name_order(l2, l2.len())[p]],
        ),
    decreases i,
{
    let n = l1.len();
    let o1 = name_order(l1, n);
    let o2 = name_order(l2, n);
    lemma_name_order_shape(l1, n);
    lemma_name_order_shape(l2, n);
    if i > 0 {
        lemma_same_listing_sorted(l1, l2, i - 1);
    }
    // The partner of the i-th entry of the first listing sits at position k of the second.
    let a = l1[o1[i]];
    assert(l1[o1[i]] == a);
    let j = choose|j: int| 0 <= j < l2.len() && same_entry(a, l2[j]);
    lemma_name_order_covers(l2, n, j);
    let k = choose|k: int| 0 <= k < n && o2[k] == j;
    // The partner of the i-th entry of the second listing sits at position p of the first.
    let b = l2[o2[i]];
    assert(l2[o2[i]] == b);
    let jj = choose|jj: int| 0 <= jj < l1.len() && same_entry(l1[jj], b);
    lemma_name_order_covers(l1, n, jj);
    let p = choose|p: int| 0 <= p < n && o1[p] == jj;
    assert(entry_name(l1, o1[i]) == entry_name(l2, o2[k]));
    assert(entry_name(l1, o1[p]) == entry_name(l2, o2[i]));
    if k < i {
        assert(same_entry(l1[o1[k]], l2[o2[k]]));
        assert(entry_name(l1, o1[k]) == entry_name(l2, o2[k]));
        assert(o1[k] != o1[i]);
        assert(false);
    }
    if p < i {
        assert(same_entry(l1[o1[p]], l2[o2[p]]));
        assert(entry_name(l1, o1[p]) == entry_name(l2, o2[p]));
        assert(o2[p] != o2[i]);
        assert(false);
    }
    if k > i {
        lemma_name_order_strict(l2, i, k);
        let x = entry_name(l1, o1[i]);
        let y = entry_name(l2, o2[i]);
        assert(bytes_lt(y, x));
        lemma_bytes_lt_asymmetric(y, x);
        if p > i {
            lemma_name_order_strict(l1, i, p);
            assert(bytes_lt(x, y));
        }
        assert(false);
    }
    assert(k == i);
}

} // verus!

verus! {

/// Reading the same directory gives the same instances and state, whatever
/// order its listings, at any depth, come in.
pub proof fn lemma_scan_children_listing_order(root: Seq<char>, st: BuildState, dir: Seq<char>, a: DirectoryScan, b: DirectoryScan)
    requires
        same_scan(a, b),
    ensures
        scan_children(root, st, dir, a) == scan_children(root, st, dir, b),
    decreases a, 0nat,
{
    match a {
        DirectoryScan::Entries(l1) => {
            let l2 = b->Entries_0;
            let n = l1@.len();
            if n > 0 {
                lemma_same_listing_sorted(l1@, l2@, n - 1);
            }
            lemma_name_order_shape(l1@, n);
            lemma_name_order_shape(l2@, n);
            lemma_entries_children_same(root, st, l1@, name_order(l1@, n), l2@, name_order(l2@, n), n);
        },
        _ => {},
    }
}

proof fn lemma_entries_children_same(
    root: Seq<char>,
    st: BuildState,
    es1: Seq<ScannedEntry>,
    o1: Seq<int>,
    es2: Seq<ScannedEntry>,
    o2: Seq<int>,
    n: nat,
)
    requires
        n <= o1.len(),
        n <= o2.len(),
        forall|p: int| 0 <= p < n ==> 0 <= #[trigger] o1[p] < es1.len(),
        forall|p: int| 0 <= p < n ==> 0 <= #[trigger] o2[p] < es2.len(),
        forall|p: int| 0 <= p < n ==> same_entry(#[trigger] es1[o1[p]], es2[o2[p]]),
    ensures
        entries_children(root, st, es1, o1, n) == entries_children(root, st, es2, o2, n),
    decreases es1, n,
{
    if n > 0 {
        lemma_entries_children_same(root, st, es1, o1, es2, o2, (n - 1) as nat);
        let (st1, r1) = entries_children(root, st, es1, o1, (n - 1) as nat);
        let k1 = o1[n - 1];
        assert(0 <= k1 < es1.len());
        assert(same_entry(es1[k1], es2[o2[n - 1]]));
        lemma_entry_nodes_same(root, st1, es1[k1], es2[o2[n - 1]]);
    }
}

proof fn lemma_entry_nodes_same(root: Seq<char>, st: BuildState, e1: ScannedEntry, e2: ScannedEntry)
    requires
        same_entry(e1, e2),
    ensures
        entry_nodes(root, st, e1) == entry_nodes(root, st, e2),
    decreases e1, 0nat,
{
    match e1.kind {
        EntryKind::Directory(s1) => {
            let s2 = e2.kind->Directory_0;
            lemma_scan_children_listing_order(root, BuildState { next_id: st.next_id + 1, ..st }, e1.path@, s1, s2);
        },
        _ => {},
    }
}

/// A description becomes the same instance from scans of the same
/// directories, whatever order their listings come in.
pub proof fn lemma_build_node_listing_order(
    root: Seq<char>,
    st: BuildState,
    scans1: Seq<DirectoryScan>,
    scans2: Seq<DirectoryScan>,
    cursor: nat,
    name: Seq<char>,
    desc: RawInstanceDescription,
    fallback: Seq<char>,
)
    requires
        scans1.len() == scans2.len(),
        cursor + path_count(desc) <= scans1.len(),
        forall|k: int| 0 <= k < scans1.len() ==> same_scan(#[trigger] scans1[k], scans2[k]),
    ensures
        build_node_spec(root, st, scans1, cursor, name, desc, fallback) == build_node_spec(root, st, scans2, cursor, name, desc, fallback),
        build_node_spec(root, st, scans1, cursor, name, desc, fallback).2 is Ok ==> build_node_spec(root, st, scans1, cursor, name, desc, fallback).1 == cursor + path_count(desc),
    decreases desc, 1nat,
{
    let st1 = BuildState { next_id: st.next_id + 1, ..st };
    let cs = desc.children@;
    lemma_children_counts_monotone(cs, 0, cs.len());
    let cursor2 = match desc.path {
        Some(p) => {
            lemma_scan_children_listing_order(root, st1, joined_path(root, p@), scans1[cursor as int], scans2[cursor as int]);
            cursor + 1
        },
        None => cursor,
    };
    let st2 = match desc.path {
        Some(p) => scan_children(root, st1, joined_path(root, p@), scans1[cursor as int]).0,
        None => st1,
    };
    lemma_build_children_listing_order(root, st2, scans1, scans2, cursor2, cs, cs.len());
}

proof fn lemma_build_children_listing_order(
    root: Seq<char>,
    st: BuildState,
    scans1: Seq<DirectoryScan>,
    scans2: Seq<DirectoryScan>,
    cursor: nat,
    cs: Seq<RawChild>,
    n: nat,
)
    requires
        n <= cs.len(),
        scans1.len() == scans2.len(),
        cursor + children_path_count(cs, n) <= scans1.len(),
        forall|k: int| 0 <= k < scans1.len() ==> same_scan(#[trigger] scans1[k], scans2[k]),
    ensures
        build_children_spec(root, st, scans1, cursor, cs, n) == build_children_spec(root, st, scans2, cursor, cs, n),
        build_children_spec(root, st, scans1, cursor, cs, n).2 is Ok ==> build_children_spec(root, st, scans1, cursor, cs, n).1 == cursor + children_path_count(cs, n),
    decreases cs, n,
{
    if n > 0 {
        lemma_build_children_listing_order(root, st, scans1, scans2, cursor, cs, (n - 1) as nat);
        let (st1, c1, r1) = build_children_spec(root, st, scans1, cursor, cs, (n - 1) as nat);
        if r1 is Ok {
            lemma_build_node_listing_order(root, st1, scans1, scans2, c1, cs[n - 1].name@, cs[n - 1].description, "Folder"@);
        }
    }
}

/// Loading gives the same project from scans of the same directories,
/// whatever order the system lists their entries in.
pub proof fn lemma_load_listing_order(
    project_root: Seq<char>,
    name: Seq<char>,
    tree: RawInstanceDescription,
    scans1: Seq<DirectoryScan>,
    scans2: Seq<DirectoryScan>,
)
    requires
        scans1.len() == path_count(tree),
        scans2.len() == path_count(tree),
        forall|k: int| 0 <= k < scans1.len() ==> same_scan(#[trigger] scans1[k], scans2[k]),
    ensures
        load_spec(project_root, name, tree, scans1) == load_spec(project_root, name, tree, scans2),
{
    lemma_build_node_listing_order(
        project_root,
        BuildState { next_id: 1, scripts: Seq::empty() },
        scans1,
        scans2,
        0,
        name,
        tree,
        "DataModel"@,
    );
}

} // verus!

verus! {

// ---------------------------------------------------------------------------
// Scripts are instances of the tree

/// The instance that a script becomes: its id, name and class, no children.
pub open spec fn script_node(s: ScriptModel) -> NodeModel {
    NodeModel { id: s.id, name: s.name, class_name: s.class_name, children: Seq::empty() }
}

/// `after` extends `before`, and each script added is an instance among `nodes`.
pub open spec fn scripts_placed(before: Seq<ScriptModel>, after: Seq<ScriptModel>, nodes: Seq<NodeModel>) -> bool {
    &&& before.len() <= after.len()
    &&& after.take(before.len() as int) == before
    &&& forall|k: int| before.len() <= k < after.len() ==> crate::project_tree::forest_nodes(nodes).contains(
        script_node(#[trigger] after[k]),
    )
}

proof fn lemma_placed_empty(s: Seq<ScriptModel>)
    ensures
        scripts_placed(s, s, Seq::empty()),
{
    assert(s.take(s.len() as int) =~= s);
}

proof fn lemma_placed_compose(a: Seq<ScriptModel>, b: Seq<ScriptModel>, c: Seq<ScriptModel>, n1: Seq<NodeModel>, n2: Seq<NodeModel>)
    requires
        scripts_placed(a, b, n1),
        scripts_placed(b, c, n2),
    ensures
        scripts_placed(a, c, n1 + n2),
{
    crate::project_tree::lemma_forest_nodes_concat(n1, n2);
    let f1 = crate::project_tree::forest_nodes(n1);
    let f2 = crate::project_tree::forest_nodes(n2);
    assert(c.take(a.len() as int) =~= a) by {
        assert forall|k: int| 0 <= k < a.len() implies c[k] == a[k] by {
            assert(c.take(b.len() as int)[k] == b[k]);
            assert(b.take(a.len() as int)[k] == a[k]);
        }
    }
    assert forall|k: int| a.len() <= k < c.len() implies (f1 + f2).contains(script_node(#[trigger] c[k])) by {
        if k < b.len() {
            assert(c.take(b.len() as int)[k] == b[k]);
            assert(f1.contains(script_node(b[k])));
            let w = choose|w: int| 0 <= w < f1.len() && f1[w] == script_node(b[k]);
            assert((f1 + f2)[w] == script_node(c[k]));
        } else {
            assert(f2.contains(script_node(c[k])));
            let w = choose|w: int| 0 <= w < f2.len() && f2[w] == script_node(c[k]);
            assert((f1 + f2)[f1.len() + w] == script_node(c[k]));
        }
    }
}

proof fn lemma_placed_lift(a: Seq<ScriptModel>, b: Seq<ScriptModel>, node: NodeModel)
    requires
        scripts_placed(a, b, node.children),
    ensures
        scripts_placed(a, b, seq![node]),
{
    crate::project_tree::lemma_forest_nodes_single(node);
    let f = crate::project_tree::forest_nodes(node.children);
    assert forall|k: int| a.len() <= k < b.len() implies crate::project_tree::forest_nodes(seq![node]).contains(script_node(#[trigger] b[k])) by {
        assert(f.contains(script_node(b[k])));
        let w = choose|w: int| 0 <= w < f.len() && f[w] == script_node(b[k]);
        assert(crate::project_tree::subtree_nodes(node)[w + 1] == script_node(b[k]));
    }
}

proof fn lemma_placed_script(a: Seq<ScriptModel>, s: ScriptModel)
    ensures
        scripts_placed(a, a.push(s), seq![script_node(s)]),
{
    crate::project_tree::lemma_forest_nodes_single(script_node(s));
    assert(a.push(s).take(a.len() as int) =~= a);
    assert(crate::project_tree::subtree_nodes(script_node(s))[0] == script_node(s));
}

/// Each script that reading a directory finds is one of the instances it adds.
pub proof fn lemma_scan_children_scripts(root: Seq<char>, st: BuildState, dir: Seq<char>, scan: DirectoryScan)
    ensures
        scan_children(root, st, dir, scan).1 matches Ok(nodes) ==> scripts_placed(st.scripts, scan_children(root, st, dir, scan).0.scripts, nodes),
    decreases scan, 0nat,
{
    match scan {
        DirectoryScan::Entries(entries) => {
            lemma_entries_children_scripts(root, st, entries@, name_order(entries@, entries@.len()), entries@.len());
        },
        _ => {},
    }
}

pub proof fn lemma_entries_children_scripts(root: Seq<char>, st: BuildState, es: Seq<ScannedEntry>, order: Seq<int>, n: nat)
    ensures
        entries_children(root, st, es, order, n).1 matches Ok(nodes) ==> scripts_placed(st.scripts, entries_children(root, st, es, order, n).0.scripts, nodes),
    decreases es, n,
{
    if n == 0 {
        lemma_placed_empty(st.scripts);
    } else {
        lemma_entries_children_scripts(root, st, es, order, (n - 1) as nat);
        let (st1, r1) = entries_children(root, st, es, order, (n - 1) as nat);
        if r1 is Ok {
            let k = order[n - 1];
            if 0 <= k < es.len() {
                lemma_entry_nodes_scripts(root, st1, es[k]);
                let (st2, r2) = entry_nodes(root, st1, es[k]);
                if r2 is Ok {
                    lemma_placed_compose(st.scripts, st1.scripts, st2.scripts, r1->Ok_0, r2->Ok_0);
                }
            } else {
                assert(r1->Ok_0 + Seq::<NodeModel>::empty() =~= r1->Ok_0);
            }
        }
    }
}

pub proof fn lemma_entry_nodes_scripts(root: Seq<char>, st: BuildState, e: ScannedEntry)
    ensures
        entry_nodes(root, st, e).1 matches Ok(nodes) ==> scripts_placed(st.scripts, entry_nodes(root, st, e).0.scripts, nodes),
    decreases e, 0nat,
{
    match e.kind {
        EntryKind::Directory(sub) => {
            let st1 = BuildState { next_id: st.next_id + 1, ..st };
            lemma_scan_children_scripts(root, st1, e.path@, sub);
            let (st2, r) = scan_children(root, st1, e.path@, sub);
            if r is Ok {
                lemma_placed_lift(st.scripts, st2.scripts, NodeModel {
                    id: id_of(st.next_id as u64),
                    name: lossy_utf8(e.file_name@),
                    class_name: "Folder"@,
                    children: r->Ok_0,
                });
            }
        },
        EntryKind::File => {
            match script_descriptor_spec(e.path@, e.file_name@) {
                Ok(Some((name, class_name))) => {
                    match path_relative_to(e.path@, root) {
                        Some(rel) => {
                            lemma_placed_script(st.scripts, ScriptModel {
                                id: id_of(st.next_id as u64),
                                name,
                                class_name,
                                relative_path: rel,
                            });
                        },
                        None => {},
                    }
                },
                _ => lemma_placed_empty(st.scripts),
            }
        },
        _ => lemma_placed_empty(st.scripts),
    }
}

pub proof fn lemma_build_node_scripts(
    root: Seq<char>,
    st: BuildState,
    scans: Seq<DirectoryScan>,
    cursor: nat,
    name: Seq<char>,
    desc: RawInstanceDescription,
    fallback: Seq<char>,
)
    ensures
        build_node_spec(root, st, scans, cursor, name, desc, fallback).2 matches Ok(node) ==> scripts_placed(
            st.scripts,
            build_node_spec(root, st, scans, cursor, name, desc, fallback).0.scripts,
            seq![node],
        ),
    decreases desc, 1nat,
{
    let st1 = BuildState { next_id: st.next_id + 1, ..st };
    let (st2, cursor2, fs) = match desc.path {
        None => (st1, cursor, Ok(Seq::<NodeModel>::empty())),
        Some(p) => {
            let (s, r) = scan_children(root, st1, joined_path(root, p@), scans[cursor as int]);
            (s, cursor + 1, r)
        },
    };
    match desc.path {
        None => lemma_placed_empty(st.scripts),
        Some(p) => lemma_scan_children_scripts(root, st1, joined_path(root, p@), scans[cursor as int]),
    }
    if fs is Ok {
        lemma_build_children_scripts(root, st2, scans, cursor2, desc.children@, desc.children@.len());
        let (st3, cursor3, r) = build_children_spec(root, st2, scans, cursor2, desc.children@, desc.children@.len());
        if r is Ok {
            lemma_placed_compose(st.scripts, st2.scripts, st3.scripts, fs->Ok_0, r->Ok_0);
            let node = build_node_spec(root, st, scans, cursor, name, desc, fallback).2->Ok_0;
            assert(node.children == fs->Ok_0 + r->Ok_0);
            lemma_placed_lift(st.scripts, st3.scripts, node);
        }
    }
}

pub proof fn lemma_build_children_scripts(
    root: Seq<char>,
    st: BuildState,
    scans: Seq<DirectoryScan>,
    cursor: nat,
    cs: Seq<RawChild>,
    n: nat,
)
    ensures
        build_children_spec(root, st, scans, cursor, cs, n).2 matches Ok(nodes) ==> scripts_placed(
            st.scripts,
            build_children_spec(root, st, scans, cursor, cs, n).0.scripts,
            nodes,
        ),
    decreases cs, n,
{
    if n == 0 || n > cs.len() {
        lemma_placed_empty(st.scripts);
    } else {
        lemma_build_children_scripts(root, st, scans, cursor, cs, (n - 1) as nat);
        let (st1, c1, r1) = build_children_spec(root, st, scans, cursor, cs, (n - 1) as nat);
        if r1 is Ok {
            lemma_build_node_scripts(root, st1, scans, c1, cs[n - 1].name@, cs[n - 1].description, "Folder"@);
            let (st2, c2, r2) = build_node_spec(root, st1, scans, c1, cs[n - 1].name@, cs[n - 1].description, "Folder"@);
            if r2 is Ok {
                lemma_placed_compose(st.scripts, st1.scripts, st2.scripts, r1->Ok_0, seq![r2->Ok_0]);
                assert(r1->Ok_0.push(r2->Ok_0) =~= r1->Ok_0 + seq![r2->Ok_0]);
            }
        }
    }
}

/// Every script of a loaded project is an instance of its tree, with the
/// script's id, name and class and no children.
pub proof fn lemma_loaded_scripts_in_tree(
    project_root: Seq<char>,
    name: Seq<char>,
    tree: RawInstanceDescription,
    scans: Seq<DirectoryScan>,
)
    ensures
        load_spec(project_root, name, tree, scans) matches Ok((root, scripts)) ==> forall|k: int| 0 <= k < scripts.len() ==>
            crate::project_tree::subtree_nodes(root).contains(script_node(#[trigger] scripts[k])),
{
    let st0 = BuildState { next_id: 1, scripts: Seq::empty() };
    lemma_build_node_scripts(project_root, st0, scans, 0, name, tree, "DataModel"@);
    let (st, c, r) = build_node_spec(project_root, st0, scans, 0, name, tree, "DataModel"@);
    if r is Ok {
        crate::project_tree::lemma_forest_nodes_single(r->Ok_0);
    }
}

} // verus!

verus! {

// ---------------------------------------------------------------------------
// The order of file names

/// `a` sorts before `b` because they agree on their first `i` bytes and then
/// either `a` ends while `b` goes on, or `a`'s next byte is smaller.
pub open spec fn lex_less_at(a: Seq<u8>, b: Seq<u8>, i: int) -> bool {
    &&& 0 <= i <= a.len()
    &&& i <= b.len()
    &&& a.take(i) == b.take(i)
    &&& ((i == a.len() && i < b.len()) || (i < a.len() && i < b.len() && a[i] < b[i]))
}

/// File names are ordered lexicographically by byte value: one sorts before
/// another exactly when, after their longest common start, it ends first or
/// has the smaller byte.
pub proof fn lemma_bytes_lt_lexicographic(a: Seq<u8>, b: Seq<u8>)
    ensures
        bytes_lt(a, b) <==> exists|i: int| #[trigger] lex_less_at(a, b, i),
    decreases a.len(),
{
    if a.len() == 0 {
        if b.len() > 0 {
            assert(a.take(0) =~= b.take(0));
            assert(lex_less_at(a, b, 0));
        }
    } else if b.len() == 0 {
    } else if a[0] != b[0] {
        if a[0] < b[0] {
            assert(a.take(0) =~= b.take(0));
            assert(lex_less_at(a, b, 0));
        }
        assert forall|i: int| #[trigger] lex_less_at(a, b, i) implies i == 0 by {
            if i > 0 {
                assert(a.take(i)[0] == b.take(i)[0]);
            }
        }
    } else {
        let a1 = a.drop_first();
        let b1 = b.drop_first();
        lemma_bytes_lt_lexicographic(a1, b1);
        if bytes_lt(a1, b1) {
            let i = choose|i: int| #[trigger] lex_less_at(a1, b1, i);
            assert(a.take(i + 1) =~= seq![a[0]] + a1.take(i));
            assert(b.take(i + 1) =~= seq![b[0]] + b1.take(i));
            assert(lex_less_at(a, b, i + 1));
        }
        if exists|i: int| #[trigger] lex_less_at(a, b, i) {
            let i = choose|i: int| #[trigger] lex_less_at(a, b, i);
            assert(i > 0);
            assert(a1.take(i - 1) =~= a.take(i).drop_first());
            assert(b1.take(i - 1) =~= b.take(i).drop_first());
            assert(lex_less_at(a1, b1, i - 1));
        }
    }
}

/// Names that differ in their first byte sort by that byte's value.
pub proof fn lemma_bytes_lt_first_byte(a: Seq<u8>, b: Seq<u8>)
    requires
        a.len() > 0,
        b.len() > 0,
        a[0] != b[0],
    ensures
        bytes_lt(a, b) == (a[0] < b[0]),
{
}

/// A name sorts before every longer name that starts with it.
pub proof fn lemma_bytes_lt_prefix_first(a: Seq<u8>, s: Seq<u8>)
    requires
        s.len() > 0,
    ensures
        bytes_lt(a, a + s),
        !bytes_lt(a + s, a),
{
    lemma_bytes_lt_lexicographic(a, a + s);
    assert(a.take(a.len() as int) =~= (a + s).take(a.len() as int));
    assert(lex_less_at(a, a + s, a.len() as int));
    lemma_bytes_lt_asymmetric(a, a + s);
}

} // verus!

verus! {

// ---------------------------------------------------------------------------
// Which files hold scripts

proof fn lemma_ascii_valid_utf8(bytes: Seq<u8>)
    requires
        forall|i: int| 0 <= i < bytes.len() ==> bytes[i] < 128,
    ensures
        valid_utf8(bytes),
{
    assert(bytes.subrange(0, 0) =~= Seq::<u8>::empty());
    vstd::utf8::partial_valid_utf8_extend_ascii_block(bytes, 0, bytes.len() as int);
    assert(bytes.subrange(0, bytes.len() as int) =~= bytes);
}

proof fn lemma_suffixes_ascii()
    ensures
        valid_utf8(server_suffix()),
        valid_utf8(client_suffix()),
        valid_utf8(lua_suffix()),
        valid_utf8(init_stem()),
{
    lemma_ascii_valid_utf8(server_suffix());
    lemma_ascii_valid_utf8(client_suffix());
    lemma_ascii_valid_utf8(lua_suffix());
    lemma_ascii_valid_utf8(init_stem());
}

/// `stem + suffix` ends with `suffix`, its stem before that suffix is `stem`,
/// and it is UTF-8 where `stem` and `suffix` are.
proof fn lemma_name_parts(stem: Seq<u8>, suffix: Seq<u8>)
    ensures
        ends_with(stem + suffix, suffix),
        (stem + suffix).subrange(0, (stem + suffix).len() - suffix.len()) == stem,
        valid_utf8(stem) && valid_utf8(suffix) ==> valid_utf8(stem + suffix),
{
    let name = stem + suffix;
    assert(name.subrange(name.len() - suffix.len(), name.len() as int) =~= suffix);
    assert(name.subrange(0, name.len() - suffix.len()) =~= stem);
    if valid_utf8(stem) && valid_utf8(suffix) {
        vstd::utf8::valid_utf8_concat(stem, suffix);
    }
}

/// A name that ends with ".client.lua" does not end with ".server.lua".
proof fn lemma_client_not_server(name: Seq<u8>)
    requires
        ends_with(name, client_suffix()),
    ensures
        !ends_with(name, server_suffix()),
{
    let tail = name.subrange(name.len() - 11, name.len() as int);
    assert(tail == client_suffix());
    assert(tail[1] == 99u8);
    assert(server_suffix()[1] == 115u8);
}

/// A file whose name is a non-empty UTF-8 stem other than "init" followed
/// by ".server.lua" holds a Script named by the stem.
pub proof fn lemma_server_script(path: Seq<char>, stem: Seq<u8>)
    requires
        valid_utf8(stem),
        stem.len() > 0,
        stem != init_stem(),
    ensures
        script_descriptor_spec(path, stem + server_suffix()) == Ok::<Option<(Seq<char>, Seq<char>)>, ErrorModel>(Some((decode_utf8(stem), "Script"@))),
{
    lemma_suffixes_ascii();
    lemma_name_parts(stem, server_suffix());
}

/// A file whose name is a non-empty UTF-8 stem other than "init" followed
/// by ".client.lua" holds a LocalScript named by the stem.
pub proof fn lemma_client_script(path: Seq<char>, stem: Seq<u8>)
    requires
        valid_utf8(stem),
        stem.len() > 0,
        stem != init_stem(),
    ensures
        script_descriptor_spec(path, stem + client_suffix()) == Ok::<Option<(Seq<char>, Seq<char>)>, ErrorModel>(Some((decode_utf8(stem), "LocalScript"@))),
{
    lemma_suffixes_ascii();
    lemma_name_parts(stem, client_suffix());
    lemma_client_not_server(stem + client_suffix());
}

/// A file whose name is a non-empty UTF-8 stem other than "init" followed
/// by ".lua", and that is no server or client script, holds a ModuleScript
/// named by the stem: only the exact stem "init" is refused.
pub proof fn lemma_module_script(path: Seq<char>, stem: Seq<u8>)
    requires
        valid_utf8(stem),
        stem.len() > 0,
        stem != init_stem(),
        !ends_with(stem + lua_suffix(), server_suffix()),
        !ends_with(stem + lua_suffix(), client_suffix()),
    ensures
        script_descriptor_spec(path, stem + lua_suffix()) == Ok::<Option<(Seq<char>, Seq<char>)>, ErrorModel>(Some((decode_utf8(stem), "ModuleScript"@))),
{
    lemma_suffixes_ascii();
    lemma_name_parts(stem, lua_suffix());
}

/// A script file whose stem is "init" is refused, with the file's path.
pub proof fn lemma_init_script_refused(path: Seq<char>, suffix: Seq<u8>)
    requires
        suffix == server_suffix() || suffix == client_suffix() || suffix == lua_suffix(),
    ensures
        script_descriptor_spec(path, init_stem() + suffix) == Err::<Option<(Seq<char>, Seq<char>)>, ErrorModel>(ErrorModel::UnsupportedScriptLayout(path)),
{
    lemma_suffixes_ascii();
    lemma_name_parts(init_stem(), suffix);
    let name = init_stem() + suffix;
    if suffix == client_suffix() {
        lemma_client_not_server(name);
    }
}

} // verus!

verus! {

// ---------------------------------------------------------------------------
// The order in which directories are read

/// Building a description that succeeds reads exactly as many scans as the
/// descriptions of its tree name directories, from `cursor` on.
pub proof fn lemma_build_node_cursor(
    root: Seq<char>,
    st: BuildState,
    scans: Seq<DirectoryScan>,
    cursor: nat,
    name: Seq<char>,
    desc: RawInstanceDescription,
    fallback: Seq<char>,
)
    requires
        build_node_spec(root, st, scans, cursor, name, desc, fallback).2 is Ok,
    ensures
        build_node_spec(root, st, scans, cursor, name, desc, fallback).1 == cursor + path_count(desc),
    decreases desc, 1nat,
{
    let id = st.next_id;
    let st1 = BuildState { next_id: id + 1, ..st };
    let (st2, cursor2, fs) = match desc.path {
        None => (st1, cursor, Ok(Seq::<NodeModel>::empty())),
        Some(p) => {
            let (s, r) = scan_children(root, st1, joined_path(root, p@), scans[cursor as int]);
            (s, cursor + 1, r)
        },
    };
    assert(fs is Ok);
    lemma_build_children_cursor(root, st2, scans, cursor2, desc.children@, desc.children@.len());
}

/// Building the first `n` children, where it succeeds, reads as many scans
/// as their trees name directories, from `cursor` on.
pub proof fn lemma_build_children_cursor(
    root: Seq<char>,
    st: BuildState,
    scans: Seq<DirectoryScan>,
    cursor: nat,
    cs: Seq<RawChild>,
    n: nat,
)
    requires
        n <= cs.len(),
        build_children_spec(root, st, scans, cursor, cs, n).2 is Ok,
    ensures
        build_children_spec(root, st, scans, cursor, cs, n).1 == cursor + children_path_count(cs, n),
    decreases cs, n,
{
    if n > 0 {
        let (st1, c1, r1) = build_children_spec(root, st, scans, cursor, cs, (n - 1) as nat);
        assert(r1 is Ok);
        lemma_build_children_cursor(root, st, scans, cursor, cs, (n - 1) as nat);
        lemma_build_node_cursor(root, st1, scans, c1, cs[n - 1].name@, cs[n - 1].description, "Folder"@);
    }
}

/// A description that names a directory has it read first, before the
/// directories of its children: it is the first target, and building reads
/// it as the scan at the cursor it starts from.
pub proof fn lemma_directory_targets_own_first(root: Seq<char>, desc: RawInstanceDescription, p: String)
    requires
        desc.path == Some(p),
    ensures
        directory_targets_spec(root, desc).len() > 0,
        directory_targets_spec(root, desc)[0] == joined_path(root, p@),
{
    assert(own_directory_target(root, desc) == seq![joined_path(root, p@)]);
}

proof fn lemma_children_targets_prefix(root: Seq<char>, cs: Seq<RawChild>, a: nat, b: nat)
    requires
        a <= b <= cs.len(),
    ensures
        children_directory_targets(root, cs, a).len() <= children_directory_targets(root, cs, b).len(),
        children_directory_targets(root, cs, b).subrange(0, children_directory_targets(root, cs, a).len() as int)
            == children_directory_targets(root, cs, a),
    decreases b,
{
    if a < b {
        lemma_children_targets_prefix(root, cs, a, (b - 1) as nat);
        let x = children_directory_targets(root, cs, a);
        let y = children_directory_targets(root, cs, (b - 1) as nat);
        let z = children_directory_targets(root, cs, b);
        assert(z == y + directory_targets_spec(root, cs[b - 1].description));
        assert(z.subrange(0, x.len() as int) =~= y.subrange(0, x.len() as int));
    } else {
        let x = children_directory_targets(root, cs, a);
        assert(x.subrange(0, x.len() as int) =~= x);
    }
}

/// After a description's own directory, the targets hold those of its
/// children, child after child: the targets of child `i` stand at the
/// position where building child `i` starts reading, past the own directory
/// and the directories that the earlier children name.
pub proof fn lemma_directory_targets_child_block(root: Seq<char>, desc: RawInstanceDescription, i: int)
    requires
        0 <= i < desc.children@.len(),
    ensures
        ({
            let cs = desc.children@;
            let own: int = if desc.path is Some { 1 } else { 0 };
            directory_targets_spec(root, desc).subrange(
                own + children_path_count(cs, i as nat),
                own + children_path_count(cs, (i + 1) as nat),
            ) == directory_targets_spec(root, cs[i].description)
        }),
{
    let cs = desc.children@;
    let o = own_directory_target(root, desc);
    let all = children_directory_targets(root, cs, cs.len());
    let before = children_directory_targets(root, cs, i as nat);
    let upto = children_directory_targets(root, cs, (i + 1) as nat);
    let mine = directory_targets_spec(root, cs[i].description);
    assert(upto == before + mine);
    lemma_children_targets_prefix(root, cs, (i + 1) as nat, cs.len());
    lemma_children_directory_targets_len(root, cs, i as nat);
    lemma_children_directory_targets_len(root, cs, (i + 1) as nat);
    let t = directory_targets_spec(root, desc);
    assert(t == o + all);
    assert(all.subrange(0, upto.len() as int) == upto);
    let a: int = (o.len() + before.len()) as int;
    let b: int = (o.len() + upto.len()) as int;
    assert(upto.len() <= all.len());
    assert(b - a == mine.len());
    assert forall|k: int| 0 <= k < mine.len() implies #[trigger] t.subrange(a, b)[k] == mine[k] by {
        assert(t.subrange(a, b)[k] == t[a + k]);
        assert(t[a + k] == all[before.len() + k]);
        assert(all.subrange(0, upto.len() as int)[before.len() + k] == all[before.len() + k]);
        assert(upto[before.len() + k] == mine[k]);
    }
    assert(t.subrange(a, b) =~= mine);
}

} // verus!
