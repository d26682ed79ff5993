use junknas::chunkio::{
    assemble_read, chunk_hash, merge_chunk, read_plan, record_chunk,
    write_chunk, write_chunks, write_plan, write_spans, ChunkSpan, FsError,
};
use junknas::fsmeta::{
    create, lookup, update_chunks, update_size, ChunkMeta, CreateRequest, FsEntry, FsNodeType,
    MetadataStore, PathQuery, UpdateChunksRequest, UpdateSizeRequest,
};
use junknas::placement::{ClusterState, DriveStatus, NodeStatus};
use junknas::CHUNK_SIZE;

const CS: usize = 65536;

fn one_node(id: &str) -> ClusterState {
    ClusterState {
        nodes: vec![NodeStatus {
            node_id: id.to_string(),
            mesh_score: 900_000,
            drives: vec![DriveStatus { drive_id: "d1".to_string(), free_bytes: 1 << 30, allocated_bytes: 1 << 30 }],
        }],
    }
}

/// Drives a whole write through the library, keeping chunk images in memory
/// in place of the chunk files.
fn write(
    store: &mut MetadataStore,
    images: &mut Vec<(u64, Vec<u8>)>,
    path: &str,
    offset: u64,
    data: &[u8],
    cluster: &ClusterState,
) -> usize {
    let entry = match lookup(store, &PathQuery { path: path.to_string() }) {
        Ok(e) => e,
        Err(_) => create(store, &CreateRequest { path: path.to_string(), node_type: FsNodeType::File, mode: 0o644 }, 1).unwrap(),
    };
    let plan = write_plan(entry.chunks.len(), offset, data.len());
    if plan.is_empty() {
        return 0;
    }
    let olds: Vec<Option<Vec<u8>>> = plan
        .iter()
        .map(|s| images.iter().find(|(i, _)| *i == s.index).map(|(_, b)| b.clone()))
        .collect();
    let (_, new_images, done) = write_chunks(path, &entry, offset, data, &plan, &olds, cluster).unwrap();
    for (s, image) in plan.iter().zip(new_images) {
        images.retain(|(i, _)| *i != s.index);
        images.push((s.index, image));
    }
    update_size(store, &UpdateSizeRequest { path: path.to_string(), new_size: done.size }, 2).unwrap();
    update_chunks(store, &UpdateChunksRequest { path: path.to_string(), chunks: done.chunks.clone() }, 2).unwrap();
    data.len()
}

fn read(store: &MetadataStore, images: &Vec<(u64, Vec<u8>)>, path: &str, offset: u64, n: u32) -> Result<Vec<u8>, FsError> {
    let e = lookup(store, &PathQuery { path: path.to_string() }).unwrap();
    let plan = read_plan(&e, offset, n)?;
    let bufs: Vec<Vec<u8>> = plan
        .iter()
        .map(|m| images.iter().find(|(i, _)| *i == m.index).map(|(_, b)| b.clone()).unwrap_or_default())
        .collect();
    assemble_read(e.size, offset, n, &bufs)
}

#[test]
fn single_node_write_then_read() {
    let mut store = MetadataStore::new();
    let mut images = Vec::new();
    let cluster = one_node("A");
    assert_eq!(write(&mut store, &mut images, "/a.txt", 0, b"hello", &cluster), 5);
    let e = lookup(&store, &PathQuery { path: "/a.txt".into() }).unwrap();
    assert_eq!(e.size, 5);
    assert_eq!(e.chunks.len(), 1);
    assert_eq!(e.chunks[0].node_id, "A");
    assert_eq!(e.chunks[0].index, 0);
    assert_eq!(read(&store, &images, "/a.txt", 0, 5).unwrap(), b"hello".to_vec());
}

#[test]
fn one_megabyte_write_makes_sixteen_chunks() {
    let spans = write_spans(0, 1 << 20);
    assert_eq!(spans.len(), 16);
    for (i, s) in spans.iter().enumerate() {
        assert_eq!(s.index, i as u64);
        assert_eq!(s.intra, 0);
        assert_eq!(s.data_start, i * CS);
        assert_eq!(s.data_end, (i + 1) * CS);
    }
}

#[test]
fn partial_overwrite_keeps_location_and_changes_hash() {
    let mut store = MetadataStore::new();
    let mut images = Vec::new();
    let cluster = one_node("A");
    write(&mut store, &mut images, "/f", 0, &vec![b'a'; CS], &cluster);
    let before = lookup(&store, &PathQuery { path: "/f".into() }).unwrap().chunks[0].clone();
    let other = one_node("B");
    write(&mut store, &mut images, "/f", 100, b"BB", &other);
    let after = lookup(&store, &PathQuery { path: "/f".into() }).unwrap();
    assert_eq!(after.size, CS as u64);
    assert_eq!(after.chunks.len(), 1);
    assert_eq!(after.chunks[0].node_id, before.node_id);
    assert_eq!(after.chunks[0].drive_id, before.drive_id);
    assert_ne!(after.chunks[0].chunk_hash, before.chunk_hash);
    let mut expected = vec![b'a'; 100];
    expected.extend_from_slice(b"BB");
    expected.extend(vec![b'a'; 65434]);
    assert_eq!(read(&store, &images, "/f", 0, CS as u32).unwrap(), expected);
}

#[test]
fn empty_write_is_a_no_op() {
    assert!(write_spans(0, 0).is_empty());
    let mut store = MetadataStore::new();
    let mut images = Vec::new();
    assert_eq!(write(&mut store, &mut images, "/e", 0, b"", &one_node("A")), 0);
    let e = lookup(&store, &PathQuery { path: "/e".into() }).unwrap();
    assert_eq!(e.size, 0);
    assert!(e.chunks.is_empty());
}

#[test]
fn one_byte_at_chunk_boundary_adds_chunk_one() {
    let spans = write_spans(CHUNK_SIZE, 1);
    assert_eq!(spans, vec![ChunkSpan { index: 1, intra: 0, data_start: 0, data_end: 1 }]);
    let mut store = MetadataStore::new();
    let mut images = Vec::new();
    let cluster = one_node("A");
    write(&mut store, &mut images, "/b", 0, &vec![7u8; CS], &cluster);
    let c0 = lookup(&store, &PathQuery { path: "/b".into() }).unwrap().chunks[0].clone();
    write(&mut store, &mut images, "/b", CHUNK_SIZE, b"z", &cluster);
    let e = lookup(&store, &PathQuery { path: "/b".into() }).unwrap();
    assert_eq!(e.chunks.len(), 2);
    assert_eq!(e.chunks[0].chunk_hash, c0.chunk_hash);
    assert_eq!(e.chunks[1].index, 1);
    assert_eq!(e.size, CHUNK_SIZE + 1);
    assert_eq!(read(&store, &images, "/b", 0, CS as u32).unwrap(), vec![7u8; CS]);
}

#[test]
fn reads_stop_at_end_of_file() {
    let mut store = MetadataStore::new();
    let mut images = Vec::new();
    let cluster = one_node("A");
    let data: Vec<u8> = (0..(CS + 10)).map(|i| (i % 251) as u8).collect();
    write(&mut store, &mut images, "/r", 0, &data, &cluster);
    assert_eq!(read(&store, &images, "/r", (CS + 10) as u64, 100).unwrap(), Vec::<u8>::new());
    assert_eq!(read(&store, &images, "/r", 1_000_000, 100).unwrap(), Vec::<u8>::new());
    let tail = read(&store, &images, "/r", CHUNK_SIZE, 1000).unwrap();
    assert_eq!(tail.len(), 10);
    assert_eq!(tail, data[CS..].to_vec());
    let across = read(&store, &images, "/r", (CS - 5) as u64, 100).unwrap();
    assert_eq!(across, data[CS - 5..].to_vec());
}

#[test]
fn overlapping_writes_last_writer_wins() {
    let mut store = MetadataStore::new();
    let mut images = Vec::new();
    let cluster = one_node("A");
    write(&mut store, &mut images, "/o", 0, b"aaaaaaaaaa", &cluster);
    write(&mut store, &mut images, "/o", 2, b"bbbb", &cluster);
    write(&mut store, &mut images, "/o", 4, b"cc", &cluster);
    assert_eq!(read(&store, &images, "/o", 0, 10).unwrap(), b"aabbccaaaa".to_vec());
}

#[test]
fn read_errors() {
    let dir = FsEntry {
        path: "/d".into(),
        node_type: FsNodeType::Directory,
        size: 0,
        mode: 0o755,
        mtime: 0,
        ctime: 0,
        chunks: vec![],
        children: vec![],
    };
    assert_eq!(read_plan(&dir, 0, 10).unwrap_err(), FsError::IsDir);
    let hole = FsEntry { node_type: FsNodeType::File, size: 10, path: "/h".into(), ..dir.clone() };
    assert_eq!(read_plan(&hole, 0, 10).unwrap_err(), FsError::Io);
    assert_eq!(assemble_read(10, 0, 10, &vec![vec![1u8; 3]]).unwrap_err(), FsError::Io);
}

#[test]
fn merge_overlays_at_chunk_offset() {
    let m = merge_chunk(&[1, 2, 3], &[9, 9], 1);
    assert_eq!(m.len(), CS);
    assert_eq!(&m[..4], &[1, 9, 9, 0]);
    assert!(m[4..].iter().all(|b| *b == 0));
}

#[test]
fn chunk_hash_is_sha256_hex() {
    assert_eq!(chunk_hash(&vec![]), "e3b0c44298fc1c149afbf4c8996fb92427ae41e4649b934ca495991b7852b855");
    assert_eq!(chunk_hash(&b"abc".to_vec()), "ba7816bf8f01cfea414140de5dae2223b00361a396177a9cb410ff61f20015ad");
}

#[test]
fn record_chunk_replaces_or_appends() {
    let c = |i: u64, h: &str| ChunkMeta { index: i, node_id: "A".into(), drive_id: "d".into(), chunk_hash: h.into() };
    let mut v = vec![c(0, "x")];
    record_chunk(&mut v, c(1, "y"));
    record_chunk(&mut v, c(0, "z"));
    assert_eq!(v.len(), 2);
    assert_eq!(v[0].chunk_hash, "z");
    assert_eq!(v[1].chunk_hash, "y");
}

#[test]
fn write_chunk_fails_without_nodes() {
    let span = ChunkSpan { index: 0, intra: 0, data_start: 0, data_end: 1 };
    let r = write_chunk("/x", &vec![], &span, &None, b"q", &ClusterState { nodes: vec![] });
    assert_eq!(r.unwrap_err(), FsError::Io);
}

#[test]
fn write_past_the_end_fills_the_gap_with_zero_chunks() {
    let mut store = MetadataStore::new();
    let mut images = Vec::new();
    let cluster = one_node("A");
    write(&mut store, &mut images, "/g", 0, b"x", &cluster);
    let plan = write_plan(1, 3 * CHUNK_SIZE, 1);
    let idx: Vec<u64> = plan.iter().map(|s| s.index).collect();
    assert_eq!(idx, vec![1, 2, 3]);
    assert_eq!(plan[0], ChunkSpan { index: 1, intra: 0, data_start: 0, data_end: 0 });
    write(&mut store, &mut images, "/g", 3 * CHUNK_SIZE, b"y", &cluster);
    let e = lookup(&store, &PathQuery { path: "/g".into() }).unwrap();
    assert_eq!(e.size, 3 * CHUNK_SIZE + 1);
    assert_eq!(e.chunks.len(), 4);
    for (i, c) in e.chunks.iter().enumerate() {
        assert_eq!(c.index, i as u64);
    }
    let zero_hash = chunk_hash(&vec![0u8; CS]);
    assert_eq!(e.chunks[1].chunk_hash, zero_hash);
    assert_eq!(e.chunks[2].chunk_hash, zero_hash);
    let all = read(&store, &images, "/g", 0, (3 * CS + 1) as u32).unwrap();
    assert_eq!(all.len(), 3 * CS + 1);
    assert_eq!(all[0], b'x');
    assert!(all[1..3 * CS].iter().all(|b| *b == 0));
    assert_eq!(all[3 * CS], b'y');
    assert!(write_plan(1, 3 * CHUNK_SIZE, 0).is_empty());
}

#[test]
fn zero_length_reads_follow_the_chunk_range() {
    let file = |chunks: Vec<ChunkMeta>| FsEntry {
        path: "/z".into(),
        node_type: FsNodeType::File,
        size: 2 * CHUNK_SIZE,
        mode: 0o644,
        mtime: 0,
        ctime: 0,
        chunks,
        children: vec![],
    };
    let c0 = ChunkMeta { index: 0, node_id: "A".into(), drive_id: "d".into(), chunk_hash: "h".into() };
    // inside chunk 1, whose record is missing
    assert_eq!(read_plan(&file(vec![c0.clone()]), CHUNK_SIZE + 5, 0).unwrap_err(), FsError::Io);
    // inside chunk 0, present: its record is needed, no bytes come back
    let plan = read_plan(&file(vec![c0.clone()]), 5, 0).unwrap();
    assert_eq!(plan.len(), 1);
    assert_eq!(assemble_read(2 * CHUNK_SIZE, 5, 0, &vec![vec![]]).unwrap(), Vec::<u8>::new());
    // at a chunk boundary nothing is needed
    assert!(read_plan(&file(vec![c0]), CHUNK_SIZE, 0).unwrap().is_empty());
}
