use vstd::prelude::*;

verus! {

/// `s` without its trailing '/' characters.
pub open spec fn trim_slashes(s: Seq<char>) -> Seq<char>
    decreases s.len(),
{
    if s.len() > 0 && s.last() == '/' {
        trim_slashes(s.drop_last())
    } else {
        s
    }
}

/// Index of the last '/' in `s`, or -1 when there is none.
pub open spec fn last_slash(s: Seq<char>) -> int
    decreases s.len(),
{
    if s.len() == 0 {
        -1
    } else if s.last() == '/' {
        s.len() - 1
    } else {
        last_slash(s.drop_last())
    }
}

pub open spec fn root_path() -> Seq<char> {
    seq!['/']
}

/// The directory that holds `p`, if `p` names something below the root.
pub open spec fn parent_spec(p: Seq<char>) -> Option<Seq<char>> {
    let t = trim_slashes(p);
    let k = last_slash(t);
    if p == root_path() || k < 0 {
        None
    } else if k == 0 {
        Some(root_path())
    } else {
        Some(t.subrange(0, k))
    }
}

/// The last component of `p`.
pub open spec fn name_spec(p: Seq<char>) -> Option<Seq<char>> {
    let t = trim_slashes(p);
    let k = last_slash(t);
    if p == root_path() || k < 0 {
        None
    } else {
        Some(t.subrange(k + 1, t.len() as int))
    }
}

/// The path of the entry called `name` inside directory `dir`.
pub open spec fn child_path_spec(dir: Seq<char>, name: Seq<char>) -> Seq<char> {
    if dir == root_path() {
        root_path() + name
    } else {
        trim_slashes(dir) + seq!['/'] + name
    }
}

proof fn lemma_last_slash_bound(s: Seq<char>)
    ensures
        -1 <= last_slash(s) < s.len(),
        last_slash(s) >= 0 ==> s[last_slash(s)] == '/',
    decreases s.len(),
{
    if s.len() > 0 && s.last() != '/' {
        lemma_last_slash_bound(s.drop_last());
    }
}

pub fn is_root(p: &str) -> (r: bool)
    ensures
        r == (p@ == root_path()),
{
    let n = p.unicode_len();
    if n == 1 {
        let c = p.get_char(0);
        if c == '/' {
            assert(p@ =~= root_path());
            return true;
        }
    }
    false
}

/// Length of `p` once its trailing slashes are dropped.
fn trimmed_len(p: &str) -> (r: usize)
    ensures
        r <= p@.len(),
        trim_slashes(p@) == p@.subrange(0, r as int),
{
    let mut n = p.unicode_len();
    assert(p@.subrange(0, n as int) =~= p@);
    while n > 0 && p.get_char(n - 1) == '/'
        invariant
            n <= p@.len(),
            trim_slashes(p@) == trim_slashes(p@.subrange(0, n as int)),
        decreases n,
    {
        assert(p@.subrange(0, n as int).drop_last() =~= p@.subrange(0, n - 1));
        n = n - 1;
    }
    n
}

/// Position of the last '/' among the first `n` characters of `p`.
fn last_slash_before(p: &str, n: usize) -> (r: Option<usize>)
    requires
        n <= p@.len(),
    ensures
        match r {
            Some(k) => last_slash(p@.subrange(0, n as int)) == k,
            None => last_slash(p@.subrange(0, n as int)) == -1,
        },
{
    let mut j = n;
    while j > 0
        invariant
            j <= n <= p@.len(),
            last_slash(p@.subrange(0, n as int)) == last_slash(p@.subrange(0, j as int)),
        decreases j,
    {
        assert(p@.subrange(0, j as int).drop_last() =~= p@.subrange(0, j - 1));
        if p.get_char(j - 1) == '/' {
            return Some(j - 1);
        }
        j = j - 1;
    }
    None
}

/// The parent directory of `path`; the root and paths without a '/' have none.
pub fn parent_of(path: &str) -> (r: Result<String, ()>)
    ensures
        r is Ok <==> parent_spec(path@) is Some,
        r matches Ok(s) ==> parent_spec(path@) == Some(s@),
{
    if is_root(path) {
        return Err(());
    }
    let n = trimmed_len(path);
    proof {
        lemma_last_slash_bound(path@.subrange(0, n as int));
    }
    match last_slash_before(path, n) {
        None => Err(()),
        Some(k) => {
            if k == 0 {
                let r = String::from_str("/");
                proof {
                    reveal_strlit("/");
                }
                assert(r@ =~= root_path());
                Ok(r)
            } else {
                let s = path.substring_char(0, k);
                assert(s@ =~= trim_slashes(path@).subrange(0, k as int));
                Ok(String::from_str(s))
            }
        },
    }
}

/// The last component of `path`; the root and paths without a '/' have none.
pub fn name_of(path: &str) -> (r: Result<String, ()>)
    ensures
        r is Ok <==> name_spec(path@) is Some,
        r matches Ok(s) ==> name_spec(path@) == Some(s@),
{
    if is_root(path) {
        return Err(());
    }
    let n = trimmed_len(path);
    proof {
        lemma_last_slash_bound(path@.subrange(0, n as int));
    }
    match last_slash_before(path, n) {
        None => Err(()),
        Some(k) => {
            let s = path.substring_char(k + 1, n);
            assert(s@ =~= trim_slashes(path@).subrange(k + 1, n as int));
            Ok(String::from_str(s))
        },
    }
}

/// The full path of `name` inside directory `dir`.
pub fn child_path(dir: &str, name: &str) -> (r: String)
    ensures
        r@ == child_path_spec(dir@, name@),
{
    proof {
        reveal_strlit("/");
    }
    if is_root(dir) {
        let r = String::from_str("/").concat(name);
        assert(r@ =~= root_path() + name@);
        r
    } else {
        let n = trimmed_len(dir);
        let t = dir.substring_char(0, n);
        let r = String::from_str(t).concat("/").concat(name);
        assert(r@ =~= trim_slashes(dir@) + seq!['/'] + name@);
        r
    }
}

} // verus!
