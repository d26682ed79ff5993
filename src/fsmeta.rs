use vstd::prelude::*;
use crate::paths::{
    child_path, child_path_spec, is_root, name_of, name_spec, parent_of, parent_spec, root_path,
};
use crate::table::Table;

verus! {

#[derive(Debug, Clone, Copy, PartialEq, Eq, Structural)]
pub enum FsNodeType {
    File,
    Directory,
}

/// Where one chunk of a file lives, and the digest of its padded content.
#[derive(Debug, Clone)]
pub struct ChunkMeta {
    pub index: u64,
    pub node_id: String,
    pub drive_id: String,
    pub chunk_hash: String,
}

#[derive(Debug, Clone)]
pub struct FsEntry {
    pub path: String,
    pub node_type: FsNodeType,
    pub size: u64,
    pub mode: u32,
    pub mtime: u64,
    pub ctime: u64,
    pub chunks: Vec<ChunkMeta>,
    pub children: Vec<String>,
}

/// What an entry holds, over mathematical values.
pub struct FsEntryView {
    pub path: Seq<char>,
    pub node_type: FsNodeType,
    pub size: u64,
    pub mode: u32,
    pub mtime: u64,
    pub ctime: u64,
    pub chunks: Seq<ChunkMeta>,
    pub children: Seq<Seq<char>>,
}

impl View for FsEntry {
    type V = FsEntryView;

    open spec fn view(&self) -> FsEntryView {
        FsEntryView {
            path: self.path@,
            node_type: self.node_type,
            size: self.size,
            mode: self.mode,
            mtime: self.mtime,
            ctime: self.ctime,
            chunks: self.chunks@,
            children: names(self.children@),
        }
    }
}

/// The entries of one directory, each with its name, in the order of the
/// directory's children.
#[derive(Debug, Clone)]
pub struct ListResponse {
    pub path: String,
    pub entries: Vec<(String, FsEntry)>,
}

#[derive(Debug, Clone)]
pub struct PathQuery {
    pub path: String,
}

#[derive(Debug, Clone)]
pub struct CreateRequest {
    pub path: String,
    pub node_type: FsNodeType,
    pub mode: u32,
}

#[derive(Debug, Clone)]
pub struct UpdateSizeRequest {
    pub path: String,
    pub new_size: u64,
}

#[derive(Debug, Clone)]
pub struct UpdateChunksRequest {
    pub path: String,
    pub chunks: Vec<ChunkMeta>,
}

/// Failures of the metadata operations: absent entry (404) or bad request (400).
#[derive(Debug, Clone, Copy, PartialEq, Eq, Structural)]
pub enum MetaError {
    NotFound,
    BadRequest,
}

pub open spec fn names(v: Seq<String>) -> Seq<Seq<char>> {
    v.map_values(|s: String| s@)
}

impl ChunkMeta {
    pub fn duplicate(&self) -> (r: ChunkMeta)
        ensures
            r == *self,
    {
        ChunkMeta {
            index: self.index,
            node_id: self.node_id.clone(),
            drive_id: self.drive_id.clone(),
            chunk_hash: self.chunk_hash.clone(),
        }
    }
}

pub fn duplicate_chunks(v: &Vec<ChunkMeta>) -> (r: Vec<ChunkMeta>)
    ensures
        r@ == v@,
{
    let mut r: Vec<ChunkMeta> = Vec::new();
    let mut i: usize = 0;
    while i < v.len()
        invariant
            i <= v@.len(),
            r@ == v@.subrange(0, i as int),
        decreases v@.len() - i,
    {
        r.push(v[i].duplicate());
        i = i + 1;
        assert(r@ =~= v@.subrange(0, i as int));
    }
    assert(v@.subrange(0, v@.len() as int) =~= v@);
    r
}

pub fn duplicate_strings(v: &Vec<String>) -> (r: Vec<String>)
    ensures
        r@ == v@,
{
    let mut r: Vec<String> = Vec::new();
    let mut i: usize = 0;
    while i < v.len()
        invariant
            i <= v@.len(),
            r@ == v@.subrange(0, i as int),
        decreases v@.len() - i,
    {
        r.push(v[i].clone());
        i = i + 1;
        assert(r@ =~= v@.subrange(0, i as int));
    }
    assert(v@.subrange(0, v@.len() as int) =~= v@);
    r
}

impl FsEntry {
    pub fn duplicate(&self) -> (r: FsEntry)
        ensures
            r@ == self@,
    {
        FsEntry {
            path: self.path.clone(),
            node_type: self.node_type,
            size: self.size,
            mode: self.mode,
            mtime: self.mtime,
            ctime: self.ctime,
            chunks: duplicate_chunks(&self.chunks),
            children: duplicate_strings(&self.children),
        }
    }
}

/// `names` with every occurrence of `n` left out.
pub open spec fn without(ns: Seq<Seq<char>>, n: Seq<char>) -> Seq<Seq<char>>
    decreases ns.len(),
{
    if ns.len() == 0 {
        ns
    } else if ns.last() == n {
        without(ns.drop_last(), n)
    } else {
        without(ns.drop_last(), n).push(ns.last())
    }
}

/// The root directory of a fresh tree: empty, mode 0o755, stamped 0.
pub open spec fn root_entry() -> FsEntryView {
    FsEntryView {
        path: root_path(),
        node_type: FsNodeType::Directory,
        size: 0,
        mode: 0o755,
        mtime: 0,
        ctime: 0,
        chunks: Seq::empty(),
        children: Seq::empty(),
    }
}

/// The authoritative file tree, keyed by absolute path.
pub struct MetadataStore {
    pub entries: Table<FsEntry>,
}

impl MetadataStore {
    pub open spec fn has(&self, p: Seq<char>) -> bool {
        self.entries.contains(p)
    }

    pub open spec fn entry(&self, p: Seq<char>) -> FsEntry {
        self.entries.at(p)
    }

    /// The table is consistent, every entry sits under its own path, and the
    /// root exists as a directory.
    pub open spec fn wf(&self) -> bool {
        &&& self.entries.wf()
        &&& self.has(root_path())
        &&& self.entry(root_path()).node_type == FsNodeType::Directory
        &&& forall|p: Seq<char>| #[trigger] self.has(p) ==> self.entry(p).path@ == p
    }

    /// A store that holds only the root directory.
    pub fn new() -> (r: MetadataStore)
        ensures
            r.wf(),
            r.entries.order() == seq![root_path()],
            r.entry(root_path())@ == root_entry(),
    {
        let mut t: Table<FsEntry> = Table::new();
        let root = FsEntry {
            path: String::from_str("/"),
            node_type: FsNodeType::Directory,
            size: 0,
            mode: 0o755,
            mtime: 0,
            ctime: 0,
            chunks: Vec::new(),
            children: Vec::new(),
        };
        proof {
            reveal_strlit("/");
            assert(root.path@ =~= root_path());
            assert(root.chunks@ =~= Seq::<ChunkMeta>::empty());
            assert(names(root.children@) =~= Seq::<Seq<char>>::empty());
            assert(root@ == root_entry());
            crate::table::lemma_seq_index_of(seq![root_path()], root_path());
        }
        let ghost groot = root;
        t.insert(String::from_str("/"), root);
        assert(t.order() =~= seq![root_path()]);
        let r = MetadataStore { entries: t };
        proof {
            crate::table::lemma_seq_index_of(r.entries.order(), root_path());
            assert(r.entries.order().contains(root_path())) by {
                assert(r.entries.order()[0] == root_path());
            }
            assert(r.entry(root_path()) == groot);
            assert forall|p: Seq<char>| #[trigger] r.has(p) implies r.entry(p).path@ == p by {
                crate::table::lemma_seq_index_of(r.entries.order(), p);
            }
        }
        r
    }
}

pub open spec fn lookup_spec(store: &MetadataStore, p: Seq<char>) -> Option<FsEntryView> {
    if store.has(p) {
        Some(store.entry(p)@)
    } else {
        None
    }
}

/// The entry stored under `q.path`.
pub fn lookup(store: &MetadataStore, q: &PathQuery) -> (r: Result<FsEntry, MetaError>)
    requires
        store.wf(),
    ensures
        match r {
            Ok(e) => lookup_spec(store, q.path@) == Some(e@),
            Err(err) => lookup_spec(store, q.path@) is None && err == MetaError::NotFound,
        },
{
    match store.entries.get(q.path.as_str()) {
        Some(e) => Ok(e.duplicate()),
        None => Err(MetaError::NotFound),
    }
}

pub open spec fn add_name(ns: Seq<Seq<char>>, n: Seq<char>) -> Seq<Seq<char>> {
    if ns.contains(n) {
        ns
    } else {
        ns.push(n)
    }
}

/// `a` and `b` hold the same entries under every path but `p1` and `p2`.
pub open spec fn agrees_except(a: &MetadataStore, b: &MetadataStore, p1: Seq<char>, p2: Seq<char>) -> bool {
    forall|q: Seq<char>|
        q != p1 && q != p2 ==> (#[trigger] a.has(q) == b.has(q) && (a.has(q) ==> a.entry(q) == b.entry(q)))
}

/// The entries of directory `dir` whose children are `ns`, in that order.
pub open spec fn list_spec(store: &MetadataStore, dir: Seq<char>, ns: Seq<Seq<char>>) -> Seq<
    (Seq<char>, FsEntryView),
>
    decreases ns.len(),
{
    if ns.len() == 0 {
        Seq::empty()
    } else {
        let prev = list_spec(store, dir, ns.drop_last());
        let full = child_path_spec(dir, ns.last());
        if store.has(full) {
            prev.push((ns.last(), store.entry(full)@))
        } else {
            prev
        }
    }
}

pub open spec fn listing_view(v: Seq<(String, FsEntry)>) -> Seq<(Seq<char>, FsEntryView)> {
    v.map_values(|x: (String, FsEntry)| (x.0@, x.1@))
}

fn contains_name(v: &Vec<String>, name: &String) -> (r: bool)
    ensures
        r == names(v@).contains(name@),
{
    let mut i: usize = 0;
    while i < v.len()
        invariant
            i <= v@.len(),
            forall|j: int| 0 <= j < i ==> names(v@)[j] != name@,
        decreases v@.len() - i,
    {
        if v[i].eq(name) {
            assert(names(v@)[i as int] == name@);
            return true;
        }
        i = i + 1;
    }
    false
}

fn remove_name(v: &Vec<String>, name: &String) -> (r: Vec<String>)
    ensures
        names(r@) == without(names(v@), name@),
{
    let mut r: Vec<String> = Vec::new();
    let mut i: usize = 0;
    while i < v.len()
        invariant
            i <= v@.len(),
            names(r@) == without(names(v@).subrange(0, i as int), name@),
        decreases v@.len() - i,
    {
        assert(names(v@).subrange(0, i + 1).drop_last() =~= names(v@).subrange(0, i as int));
        if !v[i].eq(name) {
            r.push(v[i].clone());
        }
        i = i + 1;
        assert(names(r@) =~= without(names(v@).subrange(0, i as int), name@));
    }
    assert(names(v@).subrange(0, v@.len() as int) =~= names(v@));
    r
}

proof fn lemma_store_insert(old_s: &MetadataStore, new_s: &MetadataStore, p: Seq<char>, e: FsEntry)
    requires
        old_s.wf(),
        new_s.entries.wf(),
        e.path@ == p,
        p == root_path() ==> e.node_type == FsNodeType::Directory,
        forall|q: Seq<char>| #[trigger] new_s.entries.contains(q) == (old_s.entries.contains(q) || q == p),
        forall|q: Seq<char>| #[trigger]
            new_s.entries.contains(q) ==> new_s.entries.at(q) == if q == p {
                e
            } else {
                old_s.entries.at(q)
            },
    ensures
        new_s.wf(),
        new_s.has(p),
        new_s.entry(p) == e,
        agrees_except(old_s, new_s, p, p),
{
    assert(old_s.has(root_path()));
    assert(new_s.has(root_path()));
    assert(new_s.entries.contains(p));
    assert forall|q: Seq<char>| #[trigger] new_s.has(q) implies new_s.entry(q).path@ == q by {
        if q != p {
            assert(old_s.has(q));
        }
    }
}

/// The entries of the directory at `q.path`, in the order of its children;
/// children without an entry are left out.
pub fn list(store: &MetadataStore, q: &PathQuery) -> (r: Result<ListResponse, MetaError>)
    requires
        store.wf(),
    ensures
        !store.has(q.path@) ==> r == Err::<ListResponse, MetaError>(MetaError::NotFound),
        store.has(q.path@) && store.entry(q.path@).node_type != FsNodeType::Directory ==> r == Err::<
            ListResponse,
            MetaError,
        >(MetaError::BadRequest),
        store.has(q.path@) && store.entry(q.path@).node_type == FsNodeType::Directory ==> (r matches Ok(
            l,
        ) && l.path@ == q.path@ && listing_view(l.entries@) == list_spec(
            store,
            q.path@,
            store.entry(q.path@)@.children,
        )),
{
    let dir = match store.entries.get(q.path.as_str()) {
        Some(d) => d,
        None => {
            return Err(MetaError::NotFound);
        },
    };
    if dir.node_type != FsNodeType::Directory {
        return Err(MetaError::BadRequest);
    }
    let ghost ns = names(dir.children@);
    let mut out: Vec<(String, FsEntry)> = Vec::new();
    let mut i: usize = 0;
    while i < dir.children.len()
        invariant
            store.wf(),
            ns == names(dir.children@),
            *dir == store.entry(q.path@),
            i <= dir.children@.len(),
            listing_view(out@) == list_spec(store, q.path@, ns.subrange(0, i as int)),
        decreases dir.children@.len() - i,
    {
        let child = &dir.children[i];
        let full = child_path(q.path.as_str(), child.as_str());
        assert(ns.subrange(0, i + 1).drop_last() =~= ns.subrange(0, i as int));
        assert(ns.subrange(0, i + 1).last() == child@);
        match store.entries.get(full.as_str()) {
            Some(e) => {
                out.push((child.clone(), e.duplicate()));
            },
            None => {},
        }
        i = i + 1;
        assert(listing_view(out@) =~= list_spec(store, q.path@, ns.subrange(0, i as int)));
    }
    assert(ns.subrange(0, dir.children@.len() as int) =~= ns);
    Ok(ListResponse { path: q.path.clone(), entries: out })
}

/// Whether `create` accepts path `p`: not the root, with a parent and a
/// name, and the parent present as a directory.
pub open spec fn create_allowed(store: &MetadataStore, p: Seq<char>) -> bool {
    &&& p != root_path()
    &&& parent_spec(p) is Some
    &&& name_spec(p) is Some
    &&& store.has(parent_spec(p)->0)
    &&& store.entry(parent_spec(p)->0).node_type == FsNodeType::Directory
}

pub open spec fn fresh_entry(p: Seq<char>, t: FsNodeType, mode: u32, now: u64) -> FsEntryView {
    FsEntryView {
        path: p,
        node_type: t,
        size: 0,
        mode,
        mtime: now,
        ctime: now,
        chunks: Seq::empty(),
        children: Seq::empty(),
    }
}

proof fn lemma_parent_differs(p: Seq<char>)
    requires
        parent_spec(p) is Some,
    ensures
        parent_spec(p)->0 != p,
{
    lemma_trim_len(p);
    let t = crate::paths::trim_slashes(p);
    let k = crate::paths::last_slash(t);
    if k == 0 {
        assert(t.len() >= 1);
        if t.len() == 1 {
            lemma_trim_no_slash_end(p);
            lemma_last_slash_at(t);
        }
        if p.len() == 1 {
            assert(p == t);
            lemma_last_slash_at(t);
            assert(p =~= root_path());
        }
    } else {
        lemma_last_slash_at(t);
    }
}

proof fn lemma_trim_len(s: Seq<char>)
    ensures
        crate::paths::trim_slashes(s).len() <= s.len(),
        crate::paths::trim_slashes(s) == s.subrange(0, crate::paths::trim_slashes(s).len() as int),
    decreases s.len(),
{
    if s.len() > 0 && s.last() == '/' {
        lemma_trim_len(s.drop_last());
        assert(s.drop_last().subrange(0, crate::paths::trim_slashes(s).len() as int) =~= s.subrange(
            0,
            crate::paths::trim_slashes(s).len() as int,
        ));
    } else {
        assert(s.subrange(0, s.len() as int) =~= s);
    }
}

proof fn lemma_trim_no_slash_end(s: Seq<char>)
    ensures
        crate::paths::trim_slashes(s).len() > 0 ==> crate::paths::trim_slashes(s).last() != '/',
    decreases s.len(),
{
    if s.len() > 0 && s.last() == '/' {
        lemma_trim_no_slash_end(s.drop_last());
    }
}

proof fn lemma_last_slash_at(s: Seq<char>)
    ensures
        -1 <= crate::paths::last_slash(s) < s.len(),
        crate::paths::last_slash(s) >= 0 ==> s[crate::paths::last_slash(s)] == '/',
    decreases s.len(),
{
    if s.len() > 0 && s.last() != '/' {
        lemma_last_slash_at(s.drop_last());
    }
}

/// What `create` leaves behind: either a refusal with the store unchanged,
/// or the fresh entry at `p` with its name added to the parent's children.
pub open spec fn create_post(
    s0: &MetadataStore,
    s1: &MetadataStore,
    p: Seq<char>,
    t: FsNodeType,
    mode: u32,
    now: u64,
    r: Result<FsEntry, MetaError>,
) -> bool {
    &&& !create_allowed(s0, p) ==> r == Err::<FsEntry, MetaError>(MetaError::BadRequest) && *s1
        == *s0
    &&& create_allowed(s0, p) ==> ({
        let parent = parent_spec(p)->0;
        let name = name_spec(p)->0;
        let pe = s0.entry(parent)@;
        &&& r matches Ok(e)
        &&& e@ == fresh_entry(p, t, mode, now)
        &&& s1.has(p)
        &&& s1.entry(p)@ == fresh_entry(p, t, mode, now)
        &&& s1.has(parent)
        &&& s1.entry(parent)@ == FsEntryView { children: add_name(pe.children, name), ..pe }
        &&& agrees_except(s0, s1, p, parent)
    })
}

/// Creates an entry of type `req.node_type` at `req.path` stamped `now`, and
/// records its name among the parent's children. An entry already at that
/// path is replaced.
pub fn create(store: &mut MetadataStore, req: &CreateRequest, now: u64) -> (r: Result<
    FsEntry,
    MetaError,
>)
    requires
        old(store).wf(),
    ensures
        final(store).wf(),
        create_post(old(store), final(store), req.path@, req.node_type, req.mode, now, r),
{
    if is_root(req.path.as_str()) {
        return Err(MetaError::BadRequest);
    }
    let parent = match parent_of(req.path.as_str()) {
        Ok(p) => p,
        Err(_) => {
            return Err(MetaError::BadRequest);
        },
    };
    let name = match name_of(req.path.as_str()) {
        Ok(n) => n,
        Err(_) => {
            return Err(MetaError::BadRequest);
        },
    };
    let mut pe = match store.entries.get(parent.as_str()) {
        Some(e) => e.duplicate(),
        None => {
            return Err(MetaError::BadRequest);
        },
    };
    if pe.node_type != FsNodeType::Directory {
        return Err(MetaError::BadRequest);
    }
    proof {
        lemma_parent_differs(req.path@);
    }
    if !contains_name(&pe.children, &name) {
        pe.children.push(name);
        assert(names(pe.children@) =~= names(old(store).entry(parent@).children@).push(
            name_spec(req.path@)->0,
        ));
    }
    let entry = FsEntry {
        path: req.path.clone(),
        node_type: req.node_type,
        size: 0,
        mode: req.mode,
        mtime: now,
        ctime: now,
        chunks: Vec::new(),
        children: Vec::new(),
    };
    assert(entry@.chunks =~= Seq::<ChunkMeta>::empty());
    assert(entry@.children =~= Seq::<Seq<char>>::empty());
    let ghost s0 = *store;
    assert(old(store).has(parent@));
    store.entries.insert(parent, pe);
    proof {
        lemma_store_insert(&s0, store, parent@, pe);
    }
    let ghost s1 = *store;
    let d = entry.duplicate();
    let ghost gd = d;
    store.entries.insert(req.path.clone(), d);
    proof {
        lemma_store_insert(&s1, store, req.path@, gd);
    }
    Ok(entry)
}

/// What `update_size` and `update_chunks` leave behind: the file at `p`
/// becomes `changed`, and nothing else moves.
pub open spec fn update_post(
    s0: &MetadataStore,
    s1: &MetadataStore,
    p: Seq<char>,
    changed: FsEntryView,
    r: Result<(), MetaError>,
) -> bool {
    &&& !s0.has(p) ==> r == Err::<(), MetaError>(MetaError::NotFound) && *s1 == *s0
    &&& s0.has(p) && s0.entry(p).node_type != FsNodeType::File ==> r == Err::<(), MetaError>(
        MetaError::BadRequest,
    ) && *s1 == *s0
    &&& s0.has(p) && s0.entry(p).node_type == FsNodeType::File ==> {
        &&& r is Ok
        &&& s1.has(p)
        &&& s1.entry(p)@ == changed
        &&& agrees_except(s0, s1, p, p)
    }
}

/// Sets the size of the file at `req.path` and stamps it `now`.
pub fn update_size(store: &mut MetadataStore, req: &UpdateSizeRequest, now: u64) -> (r: Result<
    (),
    MetaError,
>)
    requires
        old(store).wf(),
    ensures
        final(store).wf(),
        update_post(
            old(store),
            final(store),
            req.path@,
            FsEntryView { size: req.new_size, mtime: now, ..old(store).entry(req.path@)@ },
            r,
        ),
{
    let mut e = match store.entries.get(req.path.as_str()) {
        Some(e) => e.duplicate(),
        None => {
            return Err(MetaError::NotFound);
        },
    };
    if e.node_type != FsNodeType::File {
        return Err(MetaError::BadRequest);
    }
    assert(old(store).has(req.path@));
    e.size = req.new_size;
    e.mtime = now;
    let ghost s0 = *store;
    let ghost ge = e;
    store.entries.insert(req.path.clone(), e);
    proof {
        lemma_store_insert(&s0, store, req.path@, ge);
    }
    Ok(())
}

/// Replaces the chunk list of the file at `req.path` and stamps it `now`.
pub fn update_chunks(store: &mut MetadataStore, req: &UpdateChunksRequest, now: u64) -> (r: Result<
    (),
    MetaError,
>)
    requires
        old(store).wf(),
    ensures
        final(store).wf(),
        update_post(
            old(store),
            final(store),
            req.path@,
            FsEntryView { chunks: req.chunks@, mtime: now, ..old(store).entry(req.path@)@ },
            r,
        ),
{
    let mut e = match store.entries.get(req.path.as_str()) {
        Some(e) => e.duplicate(),
        None => {
            return Err(MetaError::NotFound);
        },
    };
    if e.node_type != FsNodeType::File {
        return Err(MetaError::BadRequest);
    }
    assert(old(store).has(req.path@));
    e.chunks = duplicate_chunks(&req.chunks);
    e.mtime = now;
    let ghost s0 = *store;
    let ghost ge = e;
    store.entries.insert(req.path.clone(), e);
    proof {
        lemma_store_insert(&s0, store, req.path@, ge);
    }
    Ok(())
}

/// What `delete` leaves behind: a refusal for the root or a path without a
/// parent; otherwise the name leaves the parent's children, and the entry
/// goes, or `NotFound` when there was none.
pub open spec fn delete_post(
    s0: &MetadataStore,
    s1: &MetadataStore,
    p: Seq<char>,
    r: Result<(), MetaError>,
) -> bool {
    let allowed = p != root_path() && parent_spec(p) is Some && name_spec(p) is Some;
    &&& !allowed ==> r == Err::<(), MetaError>(MetaError::BadRequest) && *s1 == *s0
    &&& allowed ==> ({
        let parent = parent_spec(p)->0;
        let pe = s0.entry(parent)@;
        &&& (r is Ok <==> s0.has(p))
        &&& (r is Err ==> r == Err::<(), MetaError>(MetaError::NotFound))
        &&& !s1.has(p)
        &&& s1.has(parent) == s0.has(parent)
        &&& s0.has(parent) ==> s1.entry(parent)@ == FsEntryView {
            children: without(pe.children, name_spec(p)->0),
            ..pe
        }
        &&& agrees_except(s0, s1, p, parent)
    })
}

/// Deletes the entry at `q.path` and drops its name from the parent's children.
pub fn delete(store: &mut MetadataStore, q: &PathQuery) -> (r: Result<(), MetaError>)
    requires
        old(store).wf(),
    ensures
        final(store).wf(),
        delete_post(old(store), final(store), q.path@, r),
{
    if is_root(q.path.as_str()) {
        return Err(MetaError::BadRequest);
    }
    let parent = match parent_of(q.path.as_str()) {
        Ok(p) => p,
        Err(_) => {
            return Err(MetaError::BadRequest);
        },
    };
    let name = match name_of(q.path.as_str()) {
        Ok(n) => n,
        Err(_) => {
            return Err(MetaError::BadRequest);
        },
    };
    proof {
        lemma_parent_differs(q.path@);
    }
    let pe = match store.entries.get(parent.as_str()) {
        Some(e) => {
            let mut pe = e.duplicate();
            pe.children = remove_name(&e.children, &name);
            Some(pe)
        },
        None => None,
    };
    match pe {
        Some(pe) => {
            assert(old(store).has(parent@));
            let ghost s0 = *store;
            let ghost ge = pe;
            store.entries.insert(parent, pe);
            proof {
                lemma_store_insert(&s0, store, parent@, ge);
            }
        },
        None => {},
    }
    let ghost s1 = *store;
    let removed = store.entries.remove(q.path.as_str());
    proof {
        assert(s1.wf());
        assert(s1.has(root_path()));
        assert(store.has(root_path()));
        assert(store.entry(root_path()) == s1.entry(root_path()));
        assert forall|x: Seq<char>| #[trigger] store.has(x) implies store.entry(x).path@ == x by {
            assert(s1.has(x));
        }
    }
    match removed {
        Some(_) => Ok(()),
        None => Err(MetaError::NotFound),
    }
}

/// Creating an entry makes it visible to lookup, and deleting it again makes
/// lookup report it missing.
pub proof fn law_create_lookup_delete(
    s0: &MetadataStore,
    s1: &MetadataStore,
    s2: &MetadataStore,
    p: Seq<char>,
    t: FsNodeType,
    mode: u32,
    now: u64,
    r1: Result<FsEntry, MetaError>,
    r2: Result<(), MetaError>,
)
    requires
        s0.wf(),
        create_post(s0, s1, p, t, mode, now, r1),
        r1 is Ok,
        delete_post(s1, s2, p, r2),
    ensures
        lookup_spec(s1, p) == Some(fresh_entry(p, t, mode, now)),
        r2 is Ok,
        lookup_spec(s2, p) is None,
{
}

} // verus!
