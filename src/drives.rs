use vstd::prelude::*;

verus! {

/// One block device as `lsblk` lists it, with its nesting depth (0 for a
/// disk, 1 for its partitions, ...). A device tree is given in pre-order.
#[derive(Debug, Clone)]
pub struct BlockDevice {
    pub name: String,
    pub mountpoint: Option<String>,
    pub size: Option<u64>,
    pub kind: String,
    pub depth: usize,
}

/// The characters with Unicode's White_Space property.
pub open spec fn is_white_space(c: char) -> bool {
    ||| '\u{9}' <= c <= '\u{d}'
    ||| c == ' '
    ||| c == '\u{85}'
    ||| c == '\u{a0}'
    ||| c == '\u{1680}'
    ||| '\u{2000}' <= c <= '\u{200a}'
    ||| c == '\u{2028}'
    ||| c == '\u{2029}'
    ||| c == '\u{202f}'
    ||| c == '\u{205f}'
    ||| c == '\u{3000}'
}

/// `s` without leading and trailing white space.
pub open spec fn trim_of(s: Seq<char>) -> Seq<char>
    decreases s.len(),
{
    if s.len() > 0 && is_white_space(s[0]) {
        trim_of(s.drop_first())
    } else if s.len() > 0 && is_white_space(s.last()) {
        trim_of(s.drop_last())
    } else {
        s
    }
}

/// Relies on `str::trim`, which drops leading and trailing characters with
/// the Unicode White_Space property.
#[verifier::external_body]
fn trim_ws(s: &str) -> (r: String)
    ensures
        r@ == trim_of(s@),
{
    s.trim().to_string()
}

pub open spec fn is_bracket(c: char) -> bool {
    c == '[' || c == ']'
}

/// `s` without leading and trailing '[' and ']'.
pub open spec fn strip_brackets(s: Seq<char>) -> Seq<char>
    decreases s.len(),
{
    if s.len() > 0 && is_bracket(s[0]) {
        strip_brackets(s.drop_first())
    } else if s.len() > 0 && is_bracket(s.last()) {
        strip_brackets(s.drop_last())
    } else {
        s
    }
}

/// `swap` in any mix of ASCII upper and lower case.
pub open spec fn is_swap_word(s: Seq<char>) -> bool {
    &&& s.len() == 4
    &&& (s[0] == 's' || s[0] == 'S')
    &&& (s[1] == 'w' || s[1] == 'W')
    &&& (s[2] == 'a' || s[2] == 'A')
    &&& (s[3] == 'p' || s[3] == 'P')
}

/// A mount point that designates swap space: `swap`, in any case, possibly
/// in brackets and surrounded by white space.
pub open spec fn is_swap_spec(mp: Seq<char>) -> bool {
    is_swap_word(strip_brackets(trim_of(mp)))
}

fn strip_brackets_exec(s: &str) -> (r: &str)
    ensures
        r@ == strip_brackets(s@),
{
    let mut lo: usize = 0;
    let mut hi: usize = s.unicode_len();
    assert(s@.subrange(0, hi as int) =~= s@);
    while lo < hi
        invariant
            lo <= hi <= s@.len(),
            strip_brackets(s@) == strip_brackets(s@.subrange(lo as int, hi as int)),
        decreases hi - lo,
    {
        let ghost cur = s@.subrange(lo as int, hi as int);
        let c = s.get_char(lo);
        assert(cur[0] == c);
        if c == '[' || c == ']' {
            assert(cur.drop_first() =~= s@.subrange(lo + 1, hi as int));
            lo = lo + 1;
        } else {
            let d = s.get_char(hi - 1);
            assert(cur.last() == d);
            if d == '[' || d == ']' {
                assert(cur.drop_last() =~= s@.subrange(lo as int, hi - 1));
                hi = hi - 1;
            } else {
                return s.substring_char(lo, hi);
            }
        }
    }
    s.substring_char(lo, hi)
}

pub fn is_swap(mp: &str) -> (r: bool)
    ensures
        r == is_swap_spec(mp@),
{
    let t = trim_ws(mp);
    let s = strip_brackets_exec(t.as_str());
    if s.unicode_len() != 4 {
        return false;
    }
    let a = s.get_char(0);
    let b = s.get_char(1);
    let c = s.get_char(2);
    let d = s.get_char(3);
    (a == 's' || a == 'S') && (b == 'w' || b == 'W') && (c == 'a' || c == 'A') && (d == 'p' || d == 'P')
}

/// Whether a device (not a loop device) holds data: it is mounted, not as
/// swap, at a non-empty mount point, and has a non-zero size.
pub open spec fn holds_data(d: BlockDevice) -> bool {
    &&& d.mountpoint is Some
    &&& d.size is Some
    &&& !is_swap_spec(d.mountpoint->0@)
    &&& d.mountpoint->0@.len() > 0
    &&& d.size->0 > 0
}

/// The drive id and data root of a device that holds data.
pub open spec fn mount_of(d: BlockDevice) -> (Seq<char>, Seq<char>) {
    ("drive-"@ + d.name@, d.mountpoint->0@ + "/junknas"@)
}

/// The drives found in the first `n` devices, and the depth of a loop
/// device whose subtree is being skipped.
pub open spec fn walk_spec(devs: Seq<BlockDevice>, n: int) -> (Seq<(Seq<char>, Seq<char>)>, Option<usize>)
    decreases n,
{
    if n <= 0 {
        (Seq::empty(), None)
    } else {
        let (acc, skip) = walk_spec(devs, n - 1);
        let d = devs[n - 1];
        if skip matches Some(sd) && d.depth > sd {
            (acc, skip)
        } else if d.kind@ == "loop"@ {
            (acc, Some(d.depth))
        } else if holds_data(d) {
            (acc.push(mount_of(d)), None)
        } else {
            (acc, None)
        }
    }
}

pub open spec fn mounts_view(v: Seq<(String, String)>) -> Seq<(Seq<char>, Seq<char>)> {
    v.map_values(|x: (String, String)| (x.0@, x.1@))
}

/// The drives among a device tree (given in pre-order): every device that
/// holds data, as `drive-<name>` with the data root `<mountpoint>/junknas`;
/// loop devices and everything below them are left out.
pub fn data_mounts(devs: &Vec<BlockDevice>) -> (r: Vec<(String, String)>)
    ensures
        mounts_view(r@) == walk_spec(devs@, devs@.len() as int).0,
{
    let mut r: Vec<(String, String)> = Vec::new();
    let mut skip: Option<usize> = None;
    let loop_kind = String::from_str("loop");
    let mut i: usize = 0;
    while i < devs.len()
        invariant
            i <= devs@.len(),
            loop_kind@ == "loop"@,
            mounts_view(r@) == walk_spec(devs@, i as int).0,
            skip == walk_spec(devs@, i as int).1,
        decreases devs@.len() - i,
    {
        let d = &devs[i];
        let skipping = match skip {
            Some(sd) => d.depth > sd,
            None => false,
        };
        if skipping {
        } else if d.kind.eq(&loop_kind) {
            skip = Some(d.depth);
        } else {
            skip = None;
            match (&d.mountpoint, d.size) {
                (Some(mp), Some(size)) => {
                    if !is_swap(mp.as_str()) && mp.unicode_len() > 0 && size > 0 {
                        let id = String::from_str("drive-").concat(d.name.as_str());
                        let root = mp.clone().concat("/junknas");
                        r.push((id, root));
                    }
                },
                _ => {},
            }
        }
        i = i + 1;
        assert(mounts_view(r@) =~= walk_spec(devs@, i as int).0);
    }
    r
}

} // verus!
