# rune_project

Loads Rojo-style project descriptions into a tree of instances, with
verified contracts.

- `src/project_tree.rs`: instance ids, instance nodes and the project tree,
  whose ids are unique; depth-first listing and lookup.
- `src/rojo.rs`: project errors, script file recognition, and building the
  tree and the script list from a parsed project file and from what reading
  its directories gave.
- `src/snapshot.rs`: plain copies of a loaded project.
- `src/command.rs`: the error that opening a project answers with.
- `src/text.rs`, `src/paths.rs`: decimal notation, UTF-8 decoding and path
  operations.
- `app/`: reading files and directories, the JSON form of project files and
  the serializable forms of snapshots and errors.
