use junknas::fsmeta::{
    create, delete, list, lookup, update_chunks, update_size, ChunkMeta, CreateRequest,
    FsNodeType, MetaError, MetadataStore, PathQuery, UpdateChunksRequest, UpdateSizeRequest,
};
use junknas::paths::{child_path, name_of, parent_of};

fn q(p: &str) -> PathQuery {
    PathQuery { path: p.to_string() }
}

fn mk(store: &mut MetadataStore, p: &str, t: FsNodeType) -> Result<junknas::fsmeta::FsEntry, MetaError> {
    create(store, &CreateRequest { path: p.to_string(), node_type: t, mode: 0o644 }, 10)
}

#[test]
fn root_exists_as_directory() {
    let store = MetadataStore::new();
    let root = lookup(&store, &q("/")).unwrap();
    assert_eq!(root.node_type, FsNodeType::Directory);
    assert_eq!(root.mode, 0o755);
    assert_eq!(root.size, 0);
    assert!(root.chunks.is_empty());
    assert!(root.children.is_empty());
}

#[test]
fn create_lookup_delete_lookup() {
    let mut store = MetadataStore::new();
    let e = mk(&mut store, "/p", FsNodeType::File).unwrap();
    assert_eq!(e.path, "/p");
    assert_eq!(e.size, 0);
    assert_eq!(e.mtime, 10);
    assert_eq!(e.ctime, 10);
    assert_eq!(lookup(&store, &q("/p")).unwrap().path, "/p");
    assert_eq!(lookup(&store, &q("/")).unwrap().children, vec!["p".to_string()]);
    assert_eq!(delete(&mut store, &q("/p")), Ok(()));
    assert_eq!(lookup(&store, &q("/p")).unwrap_err(), MetaError::NotFound);
    assert!(lookup(&store, &q("/")).unwrap().children.is_empty());
    assert_eq!(delete(&mut store, &q("/p")), Err(MetaError::NotFound));
}

#[test]
fn create_rejects_root_and_missing_parent() {
    let mut store = MetadataStore::new();
    assert_eq!(mk(&mut store, "/", FsNodeType::Directory).unwrap_err(), MetaError::BadRequest);
    assert_eq!(mk(&mut store, "/no/such", FsNodeType::File).unwrap_err(), MetaError::BadRequest);
    assert_eq!(mk(&mut store, "relative", FsNodeType::File).unwrap_err(), MetaError::BadRequest);
    assert_eq!(delete(&mut store, &q("/")), Err(MetaError::BadRequest));
    mk(&mut store, "/f", FsNodeType::File).unwrap();
    assert_eq!(mk(&mut store, "/f/x", FsNodeType::File).unwrap_err(), MetaError::BadRequest);
    assert!(lookup(&store, &q("/f")).unwrap().children.is_empty());
    assert_eq!(lookup(&store, &q("/f/x")).unwrap_err(), MetaError::NotFound);
}

#[test]
fn nested_directories_and_listing() {
    let mut store = MetadataStore::new();
    mk(&mut store, "/d", FsNodeType::Directory).unwrap();
    mk(&mut store, "/d/x", FsNodeType::File).unwrap();
    mk(&mut store, "/d/y/", FsNodeType::File).unwrap();
    mk(&mut store, "/d/x", FsNodeType::File).unwrap();
    let l = list(&store, &q("/d")).unwrap();
    assert_eq!(l.path, "/d");
    let names: Vec<String> = l.entries.iter().map(|(n, _)| n.clone()).collect();
    // "/d/y/" is stored under its own spelling, so the joined path "/d/y" has no entry
    assert_eq!(names, vec!["x".to_string()]);
    assert_eq!(lookup(&store, &q("/d")).unwrap().children, vec!["x".to_string(), "y".to_string()]);
    assert_eq!(lookup(&store, &q("/d/y/")).unwrap().path, "/d/y/");
    assert_eq!(l.entries[0].1.path, "/d/x");
    assert_eq!(list(&store, &q("/d/x")).unwrap_err(), MetaError::BadRequest);
    assert_eq!(list(&store, &q("/nope")).unwrap_err(), MetaError::NotFound);
}

#[test]
fn updates_apply_to_files_only() {
    let mut store = MetadataStore::new();
    mk(&mut store, "/f", FsNodeType::File).unwrap();
    mk(&mut store, "/d", FsNodeType::Directory).unwrap();
    assert_eq!(update_size(&mut store, &UpdateSizeRequest { path: "/f".into(), new_size: 77 }, 20), Ok(()));
    let chunk = ChunkMeta { index: 0, node_id: "A".into(), drive_id: "d1".into(), chunk_hash: "h".into() };
    assert_eq!(update_chunks(&mut store, &UpdateChunksRequest { path: "/f".into(), chunks: vec![chunk] }, 30), Ok(()));
    let f = lookup(&store, &q("/f")).unwrap();
    assert_eq!(f.size, 77);
    assert_eq!(f.mtime, 30);
    assert_eq!(f.ctime, 10);
    assert_eq!(f.chunks.len(), 1);
    assert_eq!(f.chunks[0].node_id, "A");
    assert_eq!(update_size(&mut store, &UpdateSizeRequest { path: "/d".into(), new_size: 1 }, 20), Err(MetaError::BadRequest));
    assert_eq!(update_size(&mut store, &UpdateSizeRequest { path: "/g".into(), new_size: 1 }, 20), Err(MetaError::NotFound));
    assert_eq!(update_chunks(&mut store, &UpdateChunksRequest { path: "/d".into(), chunks: vec![] }, 20), Err(MetaError::BadRequest));
}

#[test]
fn path_helpers() {
    assert_eq!(parent_of("/a/b"), Ok("/a".to_string()));
    assert_eq!(parent_of("/a"), Ok("/".to_string()));
    assert_eq!(parent_of("/a/b/"), Ok("/a".to_string()));
    assert_eq!(parent_of("/"), Err(()));
    assert_eq!(parent_of("abc"), Err(()));
    assert_eq!(name_of("/a/b"), Ok("b".to_string()));
    assert_eq!(name_of("/a/b//"), Ok("b".to_string()));
    assert_eq!(name_of("/"), Err(()));
    assert_eq!(child_path("/", "x"), "/x");
    assert_eq!(child_path("/d/", "x"), "/d/x");
}
