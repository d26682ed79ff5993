use vstd::prelude::*;
use crate::fsmeta::{duplicate_chunks, ChunkMeta, FsEntry, FsEntryView, FsNodeType};
use crate::placement::{allocate_chunk, free_fits, placement, ClusterState};
use crate::CHUNK_SIZE;
use sha2::Digest;

verus! {

/// Errors of the file-system operations, as the kernel sees them.
#[derive(Debug, Clone, Copy, PartialEq, Eq, Structural)]
pub enum FsError {
    /// ENOENT: no such entry.
    NotFound,
    /// EIO: a chunk is missing, unreadable, or cannot be placed.
    Io,
    /// EISDIR: a file operation on a directory.
    IsDir,
}

pub open spec fn cs() -> int {
    CHUNK_SIZE as int
}

/// The SHA-256 digest of `b`.
pub uninterp spec fn sha256_of(b: Seq<u8>) -> Seq<u8>;

/// Relies on sha2's `Sha256::digest`: the 32-byte digest depends on the
/// bytes alone.
#[verifier::external_body]
pub(crate) fn sha256_digest(b: &[u8]) -> (r: [u8; 32])
    ensures
        r@ == sha256_of(b@),
{
    let d = sha2::Sha256::digest(b);
    let mut out = [0u8; 32];
    out.copy_from_slice(&d);
    out
}

/// Two lowercase hex digits per byte.
pub open spec fn hex_bytes(b: Seq<u8>) -> Seq<char>
    decreases b.len(),
{
    if b.len() == 0 {
        Seq::empty()
    } else {
        hex_bytes(b.drop_last()) + seq![
            crate::text::hex_digit_char((b.last() / 16) as nat),
            crate::text::hex_digit_char((b.last() % 16) as nat),
        ]
    }
}

/// Lowercase hex SHA-256 digest of `b`.
pub open spec fn sha256_hex(b: Seq<u8>) -> Seq<char> {
    hex_bytes(sha256_of(b))
}

/// Writes bytes as lowercase hex, two digits each.
pub fn hex_encode(b: &[u8]) -> (r: String)
    ensures
        r@ == hex_bytes(b@),
{
    let mut r = String::new();
    let mut i: usize = 0;
    assert(b@.subrange(0, 0) =~= Seq::<u8>::empty());
    while i < b.len()
        invariant
            i <= b@.len(),
            r@ == hex_bytes(b@.subrange(0, i as int)),
        decreases b@.len() - i,
    {
        assert(b@.subrange(0, i + 1).drop_last() =~= b@.subrange(0, i as int));
        let x = b[i];
        let hi = crate::text::hex((x / 16) as u64);
        let lo = crate::text::hex((x % 16) as u64);
        r = r.concat(hi.as_str()).concat(lo.as_str());
        i = i + 1;
        assert(r@ =~= hex_bytes(b@.subrange(0, i as int)));
    }
    assert(b@.subrange(0, b@.len() as int) =~= b@);
    r
}

/// The hex SHA-256 digest of a chunk image.
pub fn chunk_hash(b: &Vec<u8>) -> (r: String)
    ensures
        r@ == sha256_hex(b@),
{
    let d = sha256_digest(b.as_slice());
    hex_encode(&d)
}

// ---------------------------------------------------------------------------
// Chunk ranges
// ---------------------------------------------------------------------------

/// The piece of a write `[offset, offset + len)` that falls into chunk `idx`:
/// where it starts inside the chunk, and which bytes of the data it takes.
#[derive(Debug, Clone, Copy, PartialEq, Eq, Structural)]
pub struct ChunkSpan {
    pub index: u64,
    pub intra: usize,
    pub data_start: usize,
    pub data_end: usize,
}

pub open spec fn span_spec(offset: int, len: int, idx: int) -> ChunkSpan {
    let chunk_start = idx * cs();
    let start = if offset > chunk_start {
        offset
    } else {
        chunk_start
    };
    let end = if offset + len < chunk_start + cs() {
        offset + len
    } else {
        chunk_start + cs()
    };
    ChunkSpan {
        index: idx as u64,
        intra: (start - chunk_start) as usize,
        data_start: (start - offset) as usize,
        data_end: (end - offset) as usize,
    }
}

pub open spec fn first_chunk(offset: int) -> int {
    offset / cs()
}

pub open spec fn last_chunk(offset: int, len: int) -> int {
    (offset + len - 1) / cs()
}

/// The pieces of a write of `len` bytes at `offset`, one per chunk touched,
/// in chunk order.
pub open spec fn spans_spec(offset: int, len: int) -> Seq<ChunkSpan> {
    if len == 0 {
        Seq::empty()
    } else {
        Seq::new(
            (last_chunk(offset, len) - first_chunk(offset) + 1) as nat,
            |i: int| span_spec(offset, len, first_chunk(offset) + i),
       )
    }
}

proof fn lemma_span_bounds(offset: int, len: int, idx: int)
    requires
        0 <= offset,
        0 < len <= usize::MAX,
        first_chunk(offset) <= idx <= last_chunk(offset, len),
    ensures
        ({
            let s = span_spec(offset, len, idx);
            &&& 0 <= s.data_start < s.data_end <= len
            &&& s.intra + (s.data_end - s.data_start) <= cs()
            &&& idx * cs() + s.intra == offset + s.data_start
        }),
{
    assert(first_chunk(offset) * cs() <= offset) by (nonlinear_arith)
        requires
            first_chunk(offset) == offset / cs(),
            cs() > 0,
    ;
    assert(offset < (first_chunk(offset) + 1) * cs()) by (nonlinear_arith)
        requires
            first_chunk(offset) == offset / cs(),
            cs() > 0,
            offset >= 0,
    ;
    assert(last_chunk(offset, len) * cs() <= offset + len - 1) by (nonlinear_arith)
        requires
            last_chunk(offset, len) == (offset + len - 1) / cs(),
            cs() > 0,
    ;
    assert(idx * cs() >= first_chunk(offset) * cs()) by (nonlinear_arith)
        requires
            idx >= first_chunk(offset),
            cs() > 0,
    ;
    assert((idx + 1) * cs() <= (first_chunk(offset) + 1) * cs() || idx > first_chunk(offset));
    assert(idx > first_chunk(offset) ==> idx * cs() >= (first_chunk(offset) + 1) * cs()) by (
    nonlinear_arith)
        requires
            cs() > 0,
    ;
    assert(idx * cs() <= last_chunk(offset, len) * cs()) by (nonlinear_arith)
        requires
            idx <= last_chunk(offset, len),
            cs() > 0,
    ;
    let chunk_start = idx * cs();
    let start = if offset > chunk_start {
        offset
    } else {
        chunk_start
    };
    let end = if offset + len < chunk_start + cs() {
        offset + len
    } else {
        chunk_start + cs()
    };
    assert(0 <= start - chunk_start < cs());
    assert(0 <= start - offset < end - offset <= len);
}

/// Empty pieces for the chunks `n .. first_chunk(offset)` that a write past
/// the last chunk of a file with `n` chunks would otherwise leave out; each
/// becomes a zero-filled chunk.
pub open spec fn gap_spans(n: int, offset: int) -> Seq<ChunkSpan> {
    if first_chunk(offset) > n {
        Seq::new(
            (first_chunk(offset) - n) as nat,
            |i: int| ChunkSpan { index: (n + i) as u64, intra: 0, data_start: 0, data_end: 0 },
        )
    } else {
        Seq::empty()
    }
}

/// Every chunk a write of `len` bytes at `offset` produces in a file of `n`
/// chunks, in index order: the zero-filled chunks of a gap, then the pieces
/// of the write. A write of no bytes produces none.
pub open spec fn plan_spec(n: int, offset: int, len: int) -> Seq<ChunkSpan> {
    if len == 0 {
        Seq::empty()
    } else {
        gap_spans(n, offset) + spans_spec(offset, len)
    }
}

/// The chunks a write of `len` bytes at `offset` produces in a file whose
/// chunk list holds `n` records.
pub fn write_plan(n: usize, offset: u64, len: usize) -> (r: Vec<ChunkSpan>)
    requires
        offset + len <= u64::MAX,
    ensures
        r@ == plan_spec(n as int, offset as int, len as int),
{
    let spans = write_spans(offset, len);
    let mut r: Vec<ChunkSpan> = Vec::new();
    if len == 0 {
        assert(r@ =~= plan_spec(n as int, offset as int, len as int));
        return r;
    }
    let first = offset / CHUNK_SIZE;
    let ghost gap = gap_spans(n as int, offset as int);
    if first > n as u64 {
        let mut i: u64 = n as u64;
        while i < first
            invariant
                n <= i <= first,
                first == first_chunk(offset as int),
                first > n,
                gap == gap_spans(n as int, offset as int),
                r@ == gap.subrange(0, i - n),
            decreases first - i,
        {
            r.push(ChunkSpan { index: i, intra: 0, data_start: 0, data_end: 0 });
            i = i + 1;
            assert(r@ =~= gap.subrange(0, i - n));
        }
        assert(gap.subrange(0, first - n) =~= gap);
    } else {
        assert(r@ =~= gap);
    }
    let mut k: usize = 0;
    let ghost base = r@;
    while k < spans.len()
        invariant
            base == gap,
            k <= spans@.len(),
            r@ == base + spans@.subrange(0, k as int),
        decreases spans@.len() - k,
    {
        r.push(spans[k]);
        k = k + 1;
        assert(r@ =~= base + spans@.subrange(0, k as int));
    }
    assert(spans@.subrange(0, spans@.len() as int) =~= spans@);
    r
}

/// The pieces of a write of `len` bytes at `offset`; none when `len` is 0.
pub fn write_spans(offset: u64, len: usize) -> (r: Vec<ChunkSpan>)
    requires
        offset + len <= u64::MAX,
    ensures
        r@ == spans_spec(offset as int, len as int),
{
    let mut r: Vec<ChunkSpan> = Vec::new();
    if len == 0 {
        assert(r@ =~= spans_spec(offset as int, len as int));
        return r;
    }
    let end_pos: u64 = offset + len as u64;
    let first = offset / CHUNK_SIZE;
    let last = (end_pos - 1) / CHUNK_SIZE;
    assert(first <= last) by (nonlinear_arith)
        requires
            first == offset / 65536,
            last == (offset + len - 1) / 65536,
            len > 0,
    ;
    let mut idx = first;
    while idx <= last
        invariant
            first == first_chunk(offset as int),
            last == last_chunk(offset as int, len as int),
            first <= idx <= last + 1,
            last < u64::MAX,
            len > 0,
            end_pos == offset + len,
            end_pos <= u64::MAX,
            r@ == spans_spec(offset as int, len as int).subrange(0, idx - first),
        decreases last + 1 - idx,
    {
        proof {
            lemma_span_bounds(offset as int, len as int, idx as int);
        }
        assert(idx * 65536 <= end_pos) by (nonlinear_arith)
            requires
                idx <= last,
                last == (end_pos - 1) / 65536,
                end_pos >= 1,
        ;
        let chunk_start: u64 = idx * CHUNK_SIZE;
        let chunk_end: u64 = if end_pos - chunk_start < CHUNK_SIZE {
            end_pos
        } else {
            chunk_start + CHUNK_SIZE
        };
        let start: u64 = if offset > chunk_start {
            offset
        } else {
            chunk_start
        };
        let span = ChunkSpan {
            index: idx,
            intra: (start - chunk_start) as usize,
            data_start: (start - offset) as usize,
            data_end: (chunk_end - offset) as usize,
        };
        assert(span == span_spec(offset as int, len as int, idx as int));
        r.push(span);
        idx = idx + 1;
        assert(r@ =~= spans_spec(offset as int, len as int).subrange(0, idx - first));
    }
    assert(spans_spec(offset as int, len as int).subrange(0, last + 1 - first) =~= spans_spec(
        offset as int,
        len as int,
   ));
    r
}

// ---------------------------------------------------------------------------
// Merging
// ---------------------------------------------------------------------------

/// A full chunk image: `old` (zero-padded or cut to the chunk size) with
/// `piece` laid over it from position `intra`.
pub open spec fn merged_spec(old: Seq<u8>, piece: Seq<u8>, intra: int) -> Seq<u8> {
    Seq::new(
        cs() as nat,
        |k: int|
            if intra <= k < intra + piece.len() {
                piece[k - intra]
            } else if k < old.len() {
                old[k]
            } else {
                0u8
            },
   )
}

/// Builds the new image of a chunk from its old content and the piece of a
/// write that falls into it.
pub fn merge_chunk(old: &[u8], piece: &[u8], intra: usize) -> (r: Vec<u8>)
    requires
        intra + piece@.len() <= CHUNK_SIZE,
    ensures
        r@ == merged_spec(old@, piece@, intra as int),
{
    let mut r: Vec<u8> = Vec::new();
    let mut k: usize = 0;
    while k < CHUNK_SIZE as usize
        invariant
            k <= CHUNK_SIZE,
            intra + piece@.len() <= CHUNK_SIZE,
            r@ == merged_spec(old@, piece@, intra as int).subrange(0, k as int),
        decreases CHUNK_SIZE - k,
    {
        let b: u8 = if intra <= k && k - intra < piece.len() {
            piece[k - intra]
        } else if k < old.len() {
            old[k]
        } else {
            0u8
        };
        r.push(b);
        k = k + 1;
        assert(r@ =~= merged_spec(old@, piece@, intra as int).subrange(0, k as int));
    }
    assert(merged_spec(old@, piece@, intra as int).subrange(0, cs()) =~= merged_spec(
        old@,
        piece@,
        intra as int,
   ));
    r
}

// ---------------------------------------------------------------------------
// Chunk lists
// ---------------------------------------------------------------------------

/// Position of the first chunk with index `idx` in `chunks`, or -1.
pub open spec fn find_spec(chunks: Seq<ChunkMeta>, idx: int) -> int
    decreases chunks.len(),
{
    if chunks.len() == 0 {
        -1
    } else {
        let p = find_spec(chunks.drop_last(), idx);
        if p >= 0 {
            p
        } else if chunks.last().index == idx {
            chunks.len() - 1
        } else {
            -1
        }
    }
}

proof fn lemma_find_spec(chunks: Seq<ChunkMeta>, idx: int)
    ensures
        -1 <= find_spec(chunks, idx) < chunks.len(),
        find_spec(chunks, idx) >= 0 ==> chunks[find_spec(chunks, idx)].index == idx,
        find_spec(chunks, idx) >= 0 ==> forall|j: int|
            0 <= j < find_spec(chunks, idx) ==> chunks[j].index != idx,
        find_spec(chunks, idx) < 0 ==> forall|j: int| 0 <= j < chunks.len() ==> chunks[j].index != idx,
    decreases chunks.len(),
{
    if chunks.len() > 0 {
        let d = chunks.drop_last();
        lemma_find_spec(d, idx);
        assert(forall|j: int| 0 <= j < d.len() ==> d[j] == chunks[j]);
    }
}

/// The position of the chunk with index `idx`, if the list has one.
pub fn find_chunk(chunks: &Vec<ChunkMeta>, idx: u64) -> (r: Option<usize>)
    ensures
        match r {
            Some(p) => find_spec(chunks@, idx as int) == p,
            None => find_spec(chunks@, idx as int) == -1,
        },
{
    let mut i: usize = 0;
    while i < chunks.len()
        invariant
            i <= chunks@.len(),
            find_spec(chunks@.subrange(0, i as int), idx as int) == -1,
        decreases chunks@.len() - i,
    {
        assert(chunks@.subrange(0, i + 1).drop_last() =~= chunks@.subrange(0, i as int));
        if chunks[i].index == idx {
            proof {
                lemma_find_prefix(chunks@, i as int + 1, idx as int);
            }
            return Some(i);
        }
        i = i + 1;
    }
    assert(chunks@.subrange(0, chunks@.len() as int) =~= chunks@);
    None
}

proof fn lemma_find_prefix(chunks: Seq<ChunkMeta>, k: int, idx: int)
    requires
        0 <= k <= chunks.len(),
        find_spec(chunks.subrange(0, k), idx) >= 0,
    ensures
        find_spec(chunks, idx) == find_spec(chunks.subrange(0, k), idx),
    decreases chunks.len(),
{
    if k < chunks.len() {
        assert(chunks.drop_last().subrange(0, k) =~= chunks.subrange(0, k));
        lemma_find_prefix(chunks.drop_last(), k, idx);
    } else {
        assert(chunks.subrange(0, k) =~= chunks);
    }
}

/// `chunks` with `meta` recorded: it replaces the first chunk of the same
/// index, or is appended.
pub open spec fn record_spec(chunks: Seq<ChunkMeta>, meta: ChunkMeta) -> Seq<ChunkMeta> {
    let p = find_spec(chunks, meta.index as int);
    if p >= 0 {
        chunks.update(p, meta)
    } else {
        chunks.push(meta)
    }
}

pub fn record_chunk(chunks: &mut Vec<ChunkMeta>, meta: ChunkMeta)
    ensures
        final(chunks)@ == record_spec(old(chunks)@, meta),
{
    proof {
        lemma_find_spec(old(chunks)@, meta.index as int);
    }
    match find_chunk(chunks, meta.index) {
        Some(p) => {
            chunks.set(p, meta);
        },
        None => {
            chunks.push(meta);
        },
    }
}

// ---------------------------------------------------------------------------
// One chunk of a write
// ---------------------------------------------------------------------------

/// The new location record of the chunk that `span` touches: an existing
/// chunk keeps its node and drive; a new one is placed by the policy.
pub open spec fn chunk_target_ok(
    chunks: Seq<ChunkMeta>,
    idx: u64,
    cluster: Seq<crate::placement::NodeStatus>,
    hash: Seq<char>,
    meta: ChunkMeta,
) -> bool {
    let p = find_spec(chunks, idx as int);
    &&& meta.index == idx
    &&& meta.chunk_hash@ == hash
    &&& p >= 0 ==> meta.node_id == chunks[p].node_id && meta.drive_id == chunks[p].drive_id
    &&& p < 0 ==> (placement(cluster) matches Ok((k, d)) && meta.node_id@ == cluster[k].node_id@
        && meta.drive_id@ == cluster[k].drives@[d].drive_id@)
}

/// Merges, hashes and places one chunk of a write to `path`. `old` is the
/// chunk's current content when it exists and could be read. Returns the
/// chunk's new record and its full image; fails with `Io` when a new chunk
/// cannot be placed.
pub fn write_chunk(
    path: &str,
    chunks: &Vec<ChunkMeta>,
    span: &ChunkSpan,
    old: &Option<Vec<u8>>,
    data: &[u8],
    cluster: &ClusterState,
) -> (r: Result<(ChunkMeta, Vec<u8>), FsError>)
    requires
        span.data_start <= span.data_end <= data@.len(),
        span.intra + (span.data_end - span.data_start) <= CHUNK_SIZE,
        free_fits(cluster.nodes@),
    ensures
        match r {
            Ok((meta, image)) => {
                &&& image@ == merged_spec(
                    match old {
                        Some(o) => o@,
                        None => Seq::empty(),
                    },
                    data@.subrange(span.data_start as int, span.data_end as int),
                    span.intra as int,
               )
                &&& chunk_target_ok(chunks@, span.index, cluster.nodes@, sha256_hex(image@), meta)
            },
            Err(e) => e == FsError::Io && find_spec(chunks@, span.index as int) < 0 && placement(
                cluster.nodes@,
            ) is Err,
        },
{
    let piece = vstd::slice::slice_subrange(data, span.data_start, span.data_end);
    let image = match old {
        Some(o) => merge_chunk(o.as_slice(), piece, span.intra),
        None => merge_chunk(&[], piece, span.intra),
    };
    proof {
        lemma_find_spec(chunks@, span.index as int);
    }
    let hash = chunk_hash(&image);
    let meta = match find_chunk(chunks, span.index) {
        Some(p) => ChunkMeta {
            index: span.index,
            node_id: chunks[p].node_id.clone(),
            drive_id: chunks[p].drive_id.clone(),
            chunk_hash: hash,
        },
        None => match allocate_chunk(path, span.index, cluster, hash.as_str()) {
            Ok(m) => m,
            Err(_) => {
                return Err(FsError::Io);
            },
        },
    };
    Ok((meta, image))
}

/// The entry after a write of `len` bytes at `offset` whose chunk records are
/// `new_chunks`: the size grows to cover the write.
pub open spec fn written_entry(e: FsEntryView, offset: int, len: int, new_chunks: Seq<ChunkMeta>) -> FsEntryView {
    FsEntryView {
        size: if offset + len > e.size {
            (offset + len) as u64
        } else {
            e.size
        },
        chunks: new_chunks,
        ..e
    }
}

pub fn finish_write(entry: &FsEntry, offset: u64, len: usize, new_chunks: &Vec<ChunkMeta>) -> (r:
    FsEntry)
    requires
        offset + len <= u64::MAX,
    ensures
        r@ == written_entry(entry@, offset as int, len as int, new_chunks@),
{
    let mut e = entry.duplicate();
    let end_pos = offset + len as u64;
    if end_pos > e.size {
        e.size = end_pos;
    }
    e.chunks = duplicate_chunks(new_chunks);
    e
}

pub open spec fn old_view(o: Option<Vec<u8>>) -> Seq<u8> {
    match o {
        Some(v) => v@,
        None => Seq::empty(),
    }
}

/// `meta` and `image` are what `span` of a write of `data` makes of a chunk
/// whose current content is `old`.
pub open spec fn chunk_written(
    chunks: Seq<ChunkMeta>,
    span: ChunkSpan,
    old: Seq<u8>,
    data: Seq<u8>,
    cluster: Seq<crate::placement::NodeStatus>,
    meta: ChunkMeta,
    image: Seq<u8>,
) -> bool {
    &&& image == merged_spec(
        old,
        data.subrange(span.data_start as int, span.data_end as int),
        span.intra as int,
    )
    &&& chunk_target_ok(chunks, span.index, cluster, sha256_hex(image), meta)
}

proof fn lemma_plan_spans_valid(n: int, offset: int, len: int, i: int)
    requires
        0 <= n,
        0 <= offset,
        0 < len <= usize::MAX,
        0 <= i < plan_spec(n, offset, len).len(),
    ensures
        ({
            let s = plan_spec(n, offset, len)[i];
            &&& s.data_start <= s.data_end <= len
            &&& s.intra + (s.data_end - s.data_start) <= cs()
        }),
{
    let gap = gap_spans(n, offset);
    let spans = spans_spec(offset, len);
    if i >= gap.len() {
        let first = first_chunk(offset);
        let last = last_chunk(offset, len);
        assert(first <= last) by (nonlinear_arith)
            requires
                first == offset / 65536,
                last == (offset + len - 1) / 65536,
                len > 0,
                offset >= 0,
        ;
        assert(spans.len() == last - first + 1);
        assert(plan_spec(n, offset, len)[i] == spans[i - gap.len()]);
        assert(spans[i - gap.len()] == span_spec(offset, len, first + i - gap.len()));
        lemma_span_bounds(offset, len, first + i - gap.len());
    } else {
        assert(plan_spec(n, offset, len)[i] == gap[i]);
    }
}

/// All of a write to `path` but the I/O: every chunk of `plan` (from
/// `write_plan`) is merged with its current content `olds[i]` (`None` for a
/// chunk that does not exist yet or could not be read), hashed, and kept on
/// its node or placed; the entry then takes the new records and size.
/// Returns the records, the images to store, and the new entry; fails with
/// `Io` when a new chunk cannot be placed.
pub fn write_chunks(
    path: &str,
    entry: &FsEntry,
    offset: u64,
    data: &[u8],
    plan: &Vec<ChunkSpan>,
    olds: &Vec<Option<Vec<u8>>>,
    cluster: &ClusterState,
) -> (r: Result<(Vec<ChunkMeta>, Vec<Vec<u8>>, FsEntry), FsError>)
    requires
        offset + data@.len() <= u64::MAX,
        plan@ == plan_spec(entry.chunks@.len() as int, offset as int, data@.len() as int),
        olds@.len() == plan@.len(),
        free_fits(cluster.nodes@),
    ensures
        match r {
            Ok((metas, images, e)) => {
                &&& metas@.len() == plan@.len()
                &&& images@.len() == plan@.len()
                &&& forall|i: int|
                    0 <= i < plan@.len() ==> #[trigger] chunk_written(
                        entry.chunks@,
                        plan@[i],
                        old_view(olds@[i]),
                        data@,
                        cluster.nodes@,
                        metas@[i],
                        images@[i]@,
                    )
                &&& e@ == written_entry(
                    entry@,
                    offset as int,
                    data@.len() as int,
                    record_all(entry.chunks@, metas@),
                )
            },
            Err(e) => {
                &&& e == FsError::Io
                &&& placement(cluster.nodes@) is Err
                &&& exists|i: int|
                    0 <= i < plan@.len() && find_spec(entry.chunks@, (#[trigger] plan@[i]).index as int)
                        < 0
            },
        },
{
    let mut metas: Vec<ChunkMeta> = Vec::new();
    let mut images: Vec<Vec<u8>> = Vec::new();
    let dlen = data.len();
    let mut i: usize = 0;
    while i < plan.len()
        invariant
            dlen == data@.len(),
            offset + data@.len() <= u64::MAX,
            plan@ == plan_spec(entry.chunks@.len() as int, offset as int, data@.len() as int),
            olds@.len() == plan@.len(),
            free_fits(cluster.nodes@),
            i <= plan@.len(),
            metas@.len() == i,
            images@.len() == i,
            forall|k: int|
                0 <= k < i ==> #[trigger] chunk_written(
                    entry.chunks@,
                    plan@[k],
                    old_view(olds@[k]),
                    data@,
                    cluster.nodes@,
                    metas@[k],
                    images@[k]@,
                ),
        decreases plan@.len() - i,
    {
        assert(data@.len() > 0) by {
            if data@.len() == 0 {
                assert(plan_spec(entry.chunks@.len() as int, offset as int, 0).len() == 0);
            }
        }
        proof {
            lemma_plan_spans_valid(
                entry.chunks@.len() as int,
                offset as int,
                data@.len() as int,
                i as int,
            );
        }
        match write_chunk(path, &entry.chunks, &plan[i], &olds[i], data, cluster) {
            Ok((meta, image)) => {
                metas.push(meta);
                images.push(image);
            },
            Err(e) => {
                assert(find_spec(entry.chunks@, plan@[i as int].index as int) < 0);
                return Err(e);
            },
        }
        i = i + 1;
    }
    let mut chunks = duplicate_chunks(&entry.chunks);
    record_chunks(&mut chunks, &metas);
    let e = finish_write(entry, offset, data.len(), &chunks);
    Ok((metas, images, e))
}

/// A 1 MiB write at offset 0 of an empty file makes exactly sixteen chunks,
/// indexes 0 to 15, each taking a full 64 KiB of the data.
pub proof fn law_megabyte_write()
    ensures
        plan_spec(0, 0, 1048576).len() == 16,
        forall|i: int|
            0 <= i < 16 ==> #[trigger] plan_spec(0, 0, 1048576)[i] == (ChunkSpan {
                index: i as u64,
                intra: 0,
                data_start: (i * 65536) as usize,
                data_end: ((i + 1) * 65536) as usize,
            }),
{
    assert(gap_spans(0, 0) =~= Seq::<ChunkSpan>::empty());
    assert(first_chunk(0) == 0);
    assert(last_chunk(0, 1048576) == 15);
    assert(plan_spec(0, 0, 1048576) =~= spans_spec(0, 1048576));
    assert forall|i: int| 0 <= i < 16 implies #[trigger] plan_spec(0, 0, 1048576)[i] == (ChunkSpan {
        index: i as u64,
        intra: 0,
        data_start: (i * 65536) as usize,
        data_end: ((i + 1) * 65536) as usize,
    }) by {
        assert(plan_spec(0, 0, 1048576)[i] == span_spec(0, 1048576, i));
    }
}

/// One byte written at the start of chunk 1 of a file that holds exactly
/// chunk 0 touches chunk 1 alone, places it anew, keeps chunk 0's record,
/// and grows the file to `CHUNK_SIZE + 1`.
pub proof fn law_boundary_write(
    entry: FsEntryView,
    c0: ChunkMeta,
    data: Seq<u8>,
    cluster: Seq<crate::placement::NodeStatus>,
    metas: Seq<ChunkMeta>,
    images: Seq<Seq<u8>>,
)
    requires
        entry.size == cs(),
        entry.chunks == seq![c0],
        c0.index == 0,
        data.len() == 1,
        metas.len() == plan_spec(1, cs(), 1).len(),
        images.len() == metas.len(),
        forall|i: int|
            0 <= i < metas.len() ==> #[trigger] chunk_written(
                entry.chunks,
                plan_spec(1, cs(), 1)[i],
                Seq::empty(),
                data,
                cluster,
                metas[i],
                images[i],
            ),
    ensures
        metas.len() == 1,
        metas[0].index == 1,
        placement(cluster) matches Ok((k, d)) && metas[0].node_id@ == cluster[k].node_id@
            && metas[0].drive_id@ == cluster[k].drives@[d].drive_id@,
        ({
            let e = written_entry(entry, cs(), 1, record_all(entry.chunks, metas));
            &&& e.size == cs() + 1
            &&& e.chunks == seq![c0, metas[0]]
        }),
{
    assert(gap_spans(1, cs()) =~= Seq::<ChunkSpan>::empty());
    assert(last_chunk(cs(), 1) == 1);
    assert(first_chunk(cs()) == 1);
    assert(plan_spec(1, cs(), 1) =~= seq![ChunkSpan { index: 1, intra: 0, data_start: 0, data_end: 1 }]);
    assert(chunk_written(entry.chunks, plan_spec(1, cs(), 1)[0], Seq::empty(), data, cluster, metas[0], images[0]));
    assert(seq![c0].drop_last() =~= Seq::<ChunkMeta>::empty());
    assert(find_spec(seq![c0].drop_last(), 1) == -1);
    assert(seq![c0].last() == c0);
    assert(find_spec(seq![c0], 1) == -1);
    assert(metas.drop_last() =~= Seq::<ChunkMeta>::empty());
    assert(metas.last() == metas[0]);
    assert(record_all(seq![c0], metas.drop_last()) == seq![c0]);
    assert(record_spec(seq![c0], metas[0]) == seq![c0].push(metas[0]));
    assert(seq![c0].push(metas[0]) =~= seq![c0, metas[0]]);
}


// ---------------------------------------------------------------------------
// Reads
// ---------------------------------------------------------------------------

/// Where a read of `n` bytes at `offset` stops in a file of `size` bytes.
pub open spec fn read_end(size: int, offset: int, n: int) -> int {
    if offset + n < size {
        offset + n
    } else {
        size
    }
}

/// The chunk records a read needs, from `first_chunk(offset)` to the chunk of
/// the last byte read.
pub open spec fn read_indices_count(size: int, offset: int, n: int) -> int {
    if offset >= size {
        0
    } else if n == 0 {
        // the range `offset / CS ..= (offset - 1) / CS` holds the chunk of
        // `offset` unless `offset` starts a chunk
        if offset % cs() == 0 {
            0
        } else {
            1
        }
    } else {
        last_chunk(offset, read_end(size, offset, n) - offset) - first_chunk(offset) + 1
    }
}

/// The bytes a read returns, given the images `bufs` of the chunks it needs
/// (`bufs[0]` is chunk `first_chunk(offset)`).
pub open spec fn read_spec(size: int, offset: int, n: int, bufs: Seq<Seq<u8>>) -> Seq<u8> {
    if offset >= size || n == 0 {
        Seq::empty()
    } else {
        Seq::new(
            (read_end(size, offset, n) - offset) as nat,
            |k: int| bufs[(offset + k) / cs() - first_chunk(offset)][(offset + k) % cs()],
       )
    }
}

/// Bytes that chunk buffer `i` of a read must hold.
pub open spec fn needed_len(size: int, offset: int, n: int, i: int) -> int {
    let idx = first_chunk(offset) + i;
    let e = read_end(size, offset, n);
    if e < (idx + 1) * cs() {
        e - idx * cs()
    } else {
        cs()
    }
}

pub open spec fn bufs_cover(size: int, offset: int, n: int, bufs: Seq<Seq<u8>>) -> bool {
    forall|i: int| 0 <= i < bufs.len() ==> #[trigger] bufs[i].len() >= needed_len(size, offset, n, i)
}

/// `m` is the record of chunk `idx` in `chunks`.
pub open spec fn slot_matches(chunks: Seq<ChunkMeta>, idx: int, m: ChunkMeta) -> bool {
    find_spec(chunks, idx) >= 0 && m == chunks[find_spec(chunks, idx)]
}

/// `metas[i]` is the record of chunk `first + i`.
pub open spec fn plan_matches(chunks: Seq<ChunkMeta>, first: int, metas: Seq<ChunkMeta>) -> bool {
    forall|i: int| 0 <= i < metas.len() ==> #[trigger] slot_matches(chunks, first + i, metas[i])
}

proof fn lemma_plan_push(chunks: Seq<ChunkMeta>, first: int, before: Seq<ChunkMeta>, after: Seq<ChunkMeta>)
    requires
        plan_matches(chunks, first, before),
        after.len() == before.len() + 1,
        forall|i: int| 0 <= i < before.len() ==> after[i] == before[i],
        find_spec(chunks, first + before.len()) >= 0,
        after[before.len() as int] == chunks[find_spec(chunks, first + before.len())],
    ensures
        plan_matches(chunks, first, after),
{
    assert forall|i: int| 0 <= i < after.len() implies #[trigger] slot_matches(chunks, first + i, after[i]) by {
        if i < before.len() {
            assert(after[i] == before[i]);
            assert(slot_matches(chunks, first + i, before[i]));
        }
    }
}

/// The chunk records that a read of `n` bytes at `offset` needs, in chunk
/// order: those of `offset / CS ..= (end - 1) / CS`, `end` being where the
/// read stops. None past the end of the file; a read of no bytes inside a
/// chunk still needs that chunk's record. Fails with `Io` when a record is
/// missing.
pub fn read_plan(entry: &FsEntry, offset: u64, n: u32) -> (r: Result<Vec<ChunkMeta>, FsError>)
    ensures
        entry.node_type != FsNodeType::File ==> r == Err::<Vec<ChunkMeta>, FsError>(FsError::IsDir),
        entry.node_type == FsNodeType::File ==> match r {
            Ok(metas) => {
                &&& metas@.len() == read_indices_count(entry.size as int, offset as int, n as int)
                &&& plan_matches(entry.chunks@, first_chunk(offset as int), metas@)
            },
            Err(e) => {
                &&& e == FsError::Io
                &&& exists|i: int|
                    0 <= i < read_indices_count(entry.size as int, offset as int, n as int)
                        && #[trigger] find_spec(entry.chunks@, (first_chunk(offset as int) + i))
                        < 0
            },
        },
{
    if entry.node_type != FsNodeType::File {
        return Err(FsError::IsDir);
    }
    let mut metas: Vec<ChunkMeta> = Vec::new();
    if offset >= entry.size || (n == 0 && offset % CHUNK_SIZE == 0) {
        return Ok(metas);
    }
    if n == 0 {
        let idx = offset / CHUNK_SIZE;
        proof {
            lemma_find_spec(entry.chunks@, idx as int);
        }
        return match find_chunk(&entry.chunks, idx) {
            Some(p) => {
                metas.push(entry.chunks[p].duplicate());
                assert(slot_matches(entry.chunks@, first_chunk(offset as int) + 0, metas@[0]));
                Ok(metas)
            },
            None => {
                assert(find_spec(entry.chunks@, first_chunk(offset as int) + 0) < 0);
                Err(FsError::Io)
            },
        };
    }
    let end: u64 = if entry.size - offset > n as u64 {
        offset + n as u64
    } else {
        entry.size
    };
    let first = offset / CHUNK_SIZE;
    let last = (end - 1) / CHUNK_SIZE;
    assert(first <= last) by (nonlinear_arith)
        requires
            first == offset / 65536,
            last == (end - 1) / 65536,
            end > offset,
    ;
    let ghost cnt = read_indices_count(entry.size as int, offset as int, n as int);
    assert(cnt == last - first + 1);
    let mut idx = first;
    while idx <= last
        invariant
            entry.node_type == FsNodeType::File,
            first <= idx <= last + 1,
            last < u64::MAX,
            first == first_chunk(offset as int),
            cnt == last - first + 1,
            cnt == read_indices_count(entry.size as int, offset as int, n as int),
            metas@.len() == idx - first,
            plan_matches(entry.chunks@, first_chunk(offset as int), metas@),
        decreases last + 1 - idx,
    {
        proof {
            lemma_find_spec(entry.chunks@, idx as int);
        }
        match find_chunk(&entry.chunks, idx) {
            Some(p) => {
                let ghost before = metas@;
                metas.push(entry.chunks[p].duplicate());
                proof {
                    lemma_plan_push(entry.chunks@, first_chunk(offset as int), before, metas@);
                }
                assert(plan_matches(entry.chunks@, first_chunk(offset as int), metas@));
                assert(metas@[metas@.len() - 1] == entry.chunks@[p as int]);
                assert((first_chunk(offset as int) + (metas@.len() - 1)) as u64 == idx);
                assert(find_spec(entry.chunks@, idx as int) == p);
                assert(find_spec(entry.chunks@, (first_chunk(offset as int) + (metas@.len() - 1))) >= 0);
            },
            None => {
                assert(find_spec(entry.chunks@, (first_chunk(offset as int) + (idx - first)))
                    < 0);
                return Err(FsError::Io);
            },
        }
        idx = idx + 1;
    }
    Ok(metas)
}

proof fn lemma_in_chunk(pos: int, idx: int)
    requires
        idx * cs() <= pos < idx * cs() + cs(),
    ensures
        pos / cs() == idx,
        pos % cs() == pos - idx * cs(),
{
    assert(pos / 65536 == idx && pos % 65536 == pos - idx * 65536) by (nonlinear_arith)
        requires
            idx * 65536 <= pos < idx * 65536 + 65536,
    ;
}

/// Puts together the bytes of a read of `n` bytes at `offset` in a file of
/// `size` bytes from the images of the chunks it needs. Fails with `Io` when
/// a chunk image is too short for its part of the read; a read of no bytes
/// takes nothing from any image and gives no bytes.
pub fn assemble_read(size: u64, offset: u64, n: u32, bufs: &Vec<Vec<u8>>) -> (r: Result<
    Vec<u8>,
    FsError,
>)
    requires
        bufs@.len() == read_indices_count(size as int, offset as int, n as int),
    ensures
        match r {
            Ok(out) => (n > 0 ==> bufs_cover(size as int, offset as int, n as int, bufs@.map_values(
                |b: Vec<u8>| b@,
           ))) && out@ == read_spec(
                size as int,
                offset as int,
                n as int,
                bufs@.map_values(|b: Vec<u8>| b@),
           ),
            Err(e) => e == FsError::Io && n > 0 && !bufs_cover(
                size as int,
                offset as int,
                n as int,
                bufs@.map_values(|b: Vec<u8>| b@),
           ),
        },
{
    let ghost bv = bufs@.map_values(|b: Vec<u8>| b@);
    let mut out: Vec<u8> = Vec::new();
    if offset >= size || n == 0 {
        assert(out@ =~= read_spec(size as int, offset as int, n as int, bv));
        return Ok(out);
    }
    let end: u64 = if size - offset > n as u64 {
        offset + n as u64
    } else {
        size
    };
    let first = offset / CHUNK_SIZE;
    let last = (end - 1) / CHUNK_SIZE;
    assert(first * 65536 <= offset < first * 65536 + 65536) by (nonlinear_arith)
        requires
            first == offset / 65536,
    ;
    let ghost full = read_spec(size as int, offset as int, n as int, bv);
    let mut i: usize = 0;
    while i < bufs.len()
        invariant
            bv == bufs@.map_values(|b: Vec<u8>| b@),
            bufs@.len() == last - first + 1,
            first == first_chunk(offset as int),
            last == last_chunk(offset as int, end - offset),
            end == read_end(size as int, offset as int, n as int),
            offset < end <= size,
            first * 65536 <= offset < first * 65536 + 65536,
            i <= bufs@.len(),
            full == read_spec(size as int, offset as int, n as int, bv),
            forall|j: int| 0 <= j < i ==> #[trigger] bv[j].len() >= needed_len(size as int, offset as int, n as int, j),
            out@.len() == (if i == 0 {
                0
            } else if (first + i) * 65536 < end {
                (first + i) * 65536 - offset
            } else {
                end - offset
            }),
            out@ == full.subrange(0, out@.len() as int),
        decreases bufs@.len() - i,
    {
        let idx: u64 = first + i as u64;
        assert(idx <= last);
        assert(idx * 65536 <= end - 1) by (nonlinear_arith)
            requires
                idx <= last,
                last == (end - 1) / 65536,
                end >= 1,
        ;
        let chunk_start: u64 = idx * CHUNK_SIZE;
        let start: u64 = if offset > chunk_start {
            offset
        } else {
            chunk_start
        };
        let stop: u64 = if end - chunk_start < CHUNK_SIZE {
            end
        } else {
            chunk_start + CHUNK_SIZE
        };
        let start_off: usize = (start - chunk_start) as usize;
        let len: usize = (stop - start) as usize;
        let buf = &bufs[i];
        assert(bv[i as int] == buf@);
        assert(i > 0 ==> start == chunk_start);
        assert(i == 0 ==> start == offset);
        assert(out@.len() == start - offset);
        if buf.len() < start_off || buf.len() - start_off < len {
            assert(!bufs_cover(size as int, offset as int, n as int, bv)) by {
                assert(bv[i as int].len() < needed_len(size as int, offset as int, n as int, i as int));
            }
            return Err(FsError::Io);
        }
        let mut k: usize = 0;
        while k < len
            invariant
                k <= len,
                start_off + len <= buf@.len(),
                chunk_start == idx * 65536,
                start_off == start - chunk_start,
                start <= stop <= end,
                stop <= chunk_start + 65536,
                len == stop - start,
                offset <= start,
                out@.len() == start - offset + k,
                full == read_spec(size as int, offset as int, n as int, bv),
                bv[i as int] == buf@,
                idx == first + i,
                first == first_chunk(offset as int),
                end == read_end(size as int, offset as int, n as int),
                offset < end <= size,
                out@ == full.subrange(0, out@.len() as int),
            decreases len - k,
        {
            proof {
                lemma_in_chunk(start + k, idx as int);
            }
            out.push(buf[start_off + k]);
            k = k + 1;
            assert(out@ =~= full.subrange(0, out@.len() as int));
        }
        i = i + 1;
    }
    assert(out@ =~= full);
    Ok(out)
}

// ---------------------------------------------------------------------------
// Laws of reads and writes
// ---------------------------------------------------------------------------

/// Writing `data` (at most one chunk) at offset 0 of an empty file and then
/// reading the whole file gives `data` back.
pub proof fn law_single_write_read(data: Seq<u8>)
    requires
        0 < data.len() <= cs(),
    ensures
        ({
            let spans = spans_spec(0, data.len() as int);
            let s = spans[0];
            let image = merged_spec(
                Seq::empty(),
                data.subrange(s.data_start as int, s.data_end as int),
                s.intra as int,
            );
            &&& spans.len() == 1
            &&& s.index == 0
            &&& read_spec(data.len() as int, 0, data.len() as int, seq![image]) == data
        }),
{
    let n = data.len() as int;
    assert(last_chunk(0, n) == 0) by (nonlinear_arith)
        requires
            0 < n <= 65536,
            last_chunk(0, n) == (n - 1) / 65536,
    ;
    let s = span_spec(0, n, 0);
    assert(s.data_start == 0 && s.data_end == n && s.intra == 0);
    assert(data.subrange(0, n) =~= data);
    let image = merged_spec(Seq::empty(), data, 0);
    let r = read_spec(n, 0, n, seq![image]);
    assert forall|k: int| 0 <= k < n implies r[k] == data[k] by {
        lemma_in_chunk(k, 0);
    }
    assert(r =~= data);
}

/// A write of no bytes touches no chunk.
pub proof fn law_empty_write(offset: int)
    ensures
        spans_spec(offset, 0).len() == 0,
{
}

/// One byte written exactly at the start of the second chunk touches chunk 1
/// alone; recording its new chunk next to chunk 0 leaves chunk 0 as it was.
pub proof fn law_write_at_chunk_boundary(c0: ChunkMeta, meta: ChunkMeta)
    requires
        c0.index == 0,
        meta.index == 1,
    ensures
        spans_spec(cs(), 1) == seq![ChunkSpan { index: 1, intra: 0, data_start: 0, data_end: 1 }],
        record_spec(seq![c0], meta) == seq![c0, meta],
{
    assert(last_chunk(cs(), 1) == 1);
    assert(first_chunk(cs()) == 1);
    assert(spans_spec(cs(), 1) =~= seq![ChunkSpan { index: 1, intra: 0, data_start: 0, data_end: 1 }]);
    assert(seq![c0].drop_last() =~= Seq::<ChunkMeta>::empty());
    assert(find_spec(seq![c0].drop_last(), 1) == -1);
    assert(seq![c0].last() == c0);
    assert(find_spec(seq![c0], 1) == -1);
    assert(seq![c0].push(meta) =~= seq![c0, meta]);
}

/// A read returns the bytes from `offset` up to the end of the read or of
/// the file, whichever comes first: none at or past the end, and exactly
/// `size - offset` when the read runs past the end.
pub proof fn law_read_length(size: int, offset: int, n: int, bufs: Seq<Seq<u8>>)
    requires
        0 <= size,
        0 <= offset,
        0 <= n,
    ensures
        offset >= size ==> read_spec(size, offset, n, bufs).len() == 0,
        offset < size && offset + n >= size ==> read_spec(size, offset, n, bufs).len() == size
            - offset,
        offset < size && offset + n < size ==> read_spec(size, offset, n, bufs).len() == n,
{
}

/// `chunks` with every record of `metas` recorded in turn.
pub open spec fn record_all(chunks: Seq<ChunkMeta>, metas: Seq<ChunkMeta>) -> Seq<ChunkMeta>
    decreases metas.len(),
{
    if metas.len() == 0 {
        chunks
    } else {
        record_spec(record_all(chunks, metas.drop_last()), metas.last())
    }
}

/// Records the new chunk records of a write, in order.
pub fn record_chunks(chunks: &mut Vec<ChunkMeta>, metas: &Vec<ChunkMeta>)
    ensures
        final(chunks)@ == record_all(old(chunks)@, metas@),
{
    let mut i: usize = 0;
    while i < metas.len()
        invariant
            i <= metas@.len(),
            chunks@ == record_all(old(chunks)@, metas@.subrange(0, i as int)),
        decreases metas@.len() - i,
    {
        assert(metas@.subrange(0, i + 1).drop_last() =~= metas@.subrange(0, i as int));
        record_chunk(chunks, metas[i].duplicate());
        i = i + 1;
    }
    assert(metas@.subrange(0, metas@.len() as int) =~= metas@);
}

/// Chunk `i` of the list has index `i`.
pub open spec fn contiguous(chunks: Seq<ChunkMeta>) -> bool {
    forall|i: int| 0 <= i < chunks.len() ==> (#[trigger] chunks[i]).index == i
}

/// How many chunks a file of `size` bytes has: the size over the chunk
/// size, rounded up.
pub open spec fn chunk_count(size: int) -> int {
    (size + cs() - 1) / cs()
}

proof fn lemma_find_contiguous(chunks: Seq<ChunkMeta>, idx: int)
    requires
        contiguous(chunks),
        0 <= idx < chunks.len(),
    ensures
        find_spec(chunks, idx) == idx,
{
    lemma_find_spec(chunks, idx);
    assert(chunks[idx].index == idx);
    if find_spec(chunks, idx) >= 0 {
        let f = find_spec(chunks, idx);
        assert(chunks[f].index == f);
    }
}

proof fn lemma_record_prefix(
    chunks: Seq<ChunkMeta>,
    metas: Seq<ChunkMeta>,
    first: int,
    j: int,
)
    requires
        contiguous(chunks),
        0 <= first <= chunks.len(),
        0 <= j <= metas.len(),
        forall|i: int| 0 <= i < metas.len() ==> (#[trigger] metas[i]).index == first + i,
    ensures
        contiguous(record_all(chunks, metas.subrange(0, j))),
        record_all(chunks, metas.subrange(0, j)).len() == if first + j > chunks.len() {
            first + j
        } else {
            chunks.len() as int
        },
    decreases j,
{
    if j > 0 {
        lemma_record_prefix(chunks, metas, first, j - 1);
        let pre = metas.subrange(0, j);
        assert(pre.drop_last() =~= metas.subrange(0, j - 1));
        let cur = record_all(chunks, metas.subrange(0, j - 1));
        let m = metas[j - 1];
        assert(pre.last() == m);
        assert(m.index == first + j - 1);
        lemma_find_spec(cur, m.index as int);
        if (m.index as int) < cur.len() {
            lemma_find_contiguous(cur, m.index as int);
            let nxt = cur.update(m.index as int, m);
            assert(contiguous(nxt)) by {
                assert forall|i: int| 0 <= i < nxt.len() implies (#[trigger] nxt[i]).index == i by {
                    if i != m.index as int {
                        assert(nxt[i] == cur[i]);
                    }
                }
            }
        } else {
            assert(m.index as int == cur.len());
            assert(find_spec(cur, m.index as int) < 0) by {
                if find_spec(cur, m.index as int) >= 0 {
                    let f = find_spec(cur, m.index as int);
                    assert(cur[f].index == f);
                }
            }
            let nxt = cur.push(m);
            assert(contiguous(nxt)) by {
                assert forall|i: int| 0 <= i < nxt.len() implies (#[trigger] nxt[i]).index == i by {
                    if i < cur.len() {
                        assert(nxt[i] == cur[i]);
                    }
                }
            }
        }
    } else {
        assert(metas.subrange(0, 0) =~= Seq::<ChunkMeta>::empty());
    }
}

/// A file whose chunk list holds chunks 0..n for its size keeps that shape
/// after a write: once the records of the write's plan (the zero-filled
/// chunks of any gap, then the written chunks) are recorded, the list is
/// chunks 0..n' for the new size, one record per chunk.
pub proof fn law_chunk_layout(
    chunks: Seq<ChunkMeta>,
    size: int,
    offset: int,
    len: int,
    metas: Seq<ChunkMeta>,
)
    requires
        0 <= size,
        0 <= offset,
        0 < len,
        offset + len <= u64::MAX,
        contiguous(chunks),
        chunks.len() == chunk_count(size),
        metas.len() == plan_spec(chunks.len() as int, offset, len).len(),
        forall|i: int| 0 <= i < metas.len() ==> (#[trigger] metas[i]).index == plan_spec(
            chunks.len() as int,
            offset,
            len,
        )[i].index,
    ensures
        contiguous(record_all(chunks, metas)),
        record_all(chunks, metas).len() == chunk_count(
            if offset + len > size {
                offset + len
            } else {
                size
            },
        ),
{
    let first = first_chunk(offset);
    let last = last_chunk(offset, len);
    assert(first <= last) by (nonlinear_arith)
        requires
            first == offset / 65536,
            last == (offset + len - 1) / 65536,
            len > 0,
            offset >= 0,
    ;
    let n = chunks.len() as int;
    let start = if first > n {
        n
    } else {
        first
    };
    let gap = gap_spans(n, offset);
    let spans = spans_spec(offset, len);
    assert(last <= u64::MAX) by (nonlinear_arith)
        requires
            last == (offset + len - 1) / 65536,
            0 <= offset + len - 1 <= u64::MAX,
    ;
    assert(gap.len() == first - start);
    assert forall|i: int| 0 <= i < metas.len() implies (#[trigger] metas[i]).index == start + i by {
        let plan = plan_spec(n, offset, len);
        if i < gap.len() {
            assert(plan[i] == gap[i]);
        } else {
            assert(plan[i] == spans[i - gap.len()]);
            assert(spans[i - gap.len()] == span_spec(offset, len, first + i - gap.len()));
            assert(first + i - gap.len() <= last);
        }
    }
    lemma_record_prefix(chunks, metas, start, metas.len() as int);
    assert(metas.subrange(0, metas.len() as int) =~= metas);
    let m = if offset + len > size {
        offset + len
    } else {
        size
    };
    assert(chunk_count(offset + len) == last + 1) by (nonlinear_arith)
        requires
            last == (offset + len - 1) / 65536,
            chunk_count(offset + len) == (offset + len + 65536 - 1) / 65536,
    ;
    assert(size <= offset + len ==> chunk_count(size) <= chunk_count(offset + len)) by (
    nonlinear_arith)
        requires
            chunk_count(size) == (size + 65536 - 1) / 65536,
            chunk_count(offset + len) == (offset + len + 65536 - 1) / 65536,
            size >= 0,
            offset + len >= 0,
    ;
    assert(size >= offset + len ==> chunk_count(size) >= chunk_count(offset + len)) by (
    nonlinear_arith)
        requires
            chunk_count(size) == (size + 65536 - 1) / 65536,
            chunk_count(offset + len) == (offset + len + 65536 - 1) / 65536,
            size >= 0,
            offset + len >= 0,
    ;
}

// ---------------------------------------------------------------------------
// Overlapping writes within one chunk
// ---------------------------------------------------------------------------

/// A chunk image after the pieces `ws` (position inside the chunk, bytes)
/// were merged into `c` one after the other.
pub open spec fn apply_pieces(c: Seq<u8>, ws: Seq<(int, Seq<u8>)>) -> Seq<u8>
    decreases ws.len(),
{
    if ws.len() == 0 {
        c
    } else {
        merged_spec(apply_pieces(c, ws.drop_last()), ws.last().1, ws.last().0)
    }
}

/// Index of the last piece of `ws` that covers byte `k`, or -1.
pub open spec fn last_writer(ws: Seq<(int, Seq<u8>)>, k: int) -> int
    decreases ws.len(),
{
    if ws.len() == 0 {
        -1
    } else if ws.last().0 <= k < ws.last().0 + ws.last().1.len() {
        ws.len() - 1
    } else {
        last_writer(ws.drop_last(), k)
    }
}

proof fn lemma_last_writer(ws: Seq<(int, Seq<u8>)>, k: int)
    ensures
        -1 <= last_writer(ws, k) < ws.len(),
        last_writer(ws, k) >= 0 ==> ws[last_writer(ws, k)].0 <= k < ws[last_writer(ws, k)].0
            + ws[last_writer(ws, k)].1.len(),
    decreases ws.len(),
{
    if ws.len() > 0 {
        lemma_last_writer(ws.drop_last(), k);
    }
}

/// Overlapping writes into one chunk leave, at every byte, the byte of the
/// last write that covered it, and the old byte where none did.
pub proof fn law_last_writer_wins(c: Seq<u8>, ws: Seq<(int, Seq<u8>)>, k: int)
    requires
        c.len() == cs(),
        0 <= k < cs(),
        forall|i: int| 0 <= i < ws.len() ==> 0 <= (#[trigger] ws[i]).0 && ws[i].0 + ws[i].1.len() <= cs(),
    ensures
        apply_pieces(c, ws).len() == cs(),
        ({
            let j = last_writer(ws, k);
            apply_pieces(c, ws)[k] == if j >= 0 {
                ws[j].1[k - ws[j].0]
            } else {
                c[k]
            }
        }),
    decreases ws.len(),
{
    lemma_last_writer(ws, k);
    if ws.len() > 0 {
        let d = ws.drop_last();
        assert forall|i: int| 0 <= i < d.len() implies 0 <= (#[trigger] d[i]).0 && d[i].0 + d[i].1.len()
            <= cs() by {
            assert(d[i] == ws[i]);
        }
        law_last_writer_wins(c, d, k);
        lemma_last_writer(d, k);
        let j = last_writer(d, k);
        if j >= 0 {
            assert(d[j] == ws[j]);
        }
    }
}

// ---------------------------------------------------------------------------
// Names on disk and on the overlay
// ---------------------------------------------------------------------------

/// The name of the file that holds chunk `index` on a drive: `chunk_<index>`.
pub fn chunk_file_name(index: u64) -> (r: String)
    ensures
        r@ == "chunk_"@ + crate::text::decimal_spec(index as nat),
{
    String::from_str("chunk_").concat(crate::text::decimal(index).as_str())
}

/// The overlay request for chunk `index` of `path`: `FETCH <path> <index>`.
pub fn fetch_request(path: &str, index: u64) -> (r: String)
    ensures
        r@ == "FETCH "@ + path@ + " "@ + crate::text::decimal_spec(index as nat),
{
    String::from_str("FETCH ").concat(path).concat(" ").concat(crate::text::decimal(index).as_str())
}

/// The header of an overlay store request, ahead of the chunk's bytes:
/// `STORE <path> <index> <drive_id> <hash> <length>` and a newline.
pub fn store_request_header(path: &str, index: u64, drive_id: &str, hash: &str, length: u64) -> (r:
    String)
    ensures
        r@ == "STORE "@ + path@ + " "@ + crate::text::decimal_spec(index as nat) + " "@ + drive_id@
            + " "@ + hash@ + " "@ + crate::text::decimal_spec(length as nat) + "\n"@,
{
    String::from_str("STORE ").concat(path).concat(" ").concat(crate::text::decimal(index).as_str()).concat(
        " ",
    ).concat(drive_id).concat(" ").concat(hash).concat(" ").concat(
        crate::text::decimal(length).as_str(),
    ).concat("\n")
}

} // verus!
