use vstd::prelude::*;
use vstd::utf8::{decode_utf8, valid_utf8};
use crate::text::{last_index_of, last_index_spec, parse_u64, parse_u64_spec};

verus! {

/// A request a peer sends over the overlay.
#[derive(Debug, Clone)]
pub enum OverlayRequest {
    /// `FETCH <path> <index>`: send back the bytes of that chunk.
    Fetch { path: String, index: u64 },
    /// `STORE <path> <index> <drive_id> <hash> <length>\n<bytes>`: keep these
    /// bytes as that chunk on that drive.
    Store { path: String, index: u64, drive_id: String, hash: String, data: Vec<u8> },
}

/// A request over mathematical values.
pub enum RequestView {
    Fetch(Seq<char>, u64),
    Store(Seq<char>, u64, Seq<char>, Seq<char>, Seq<u8>),
}

pub open spec fn request_view(r: OverlayRequest) -> RequestView {
    match r {
        OverlayRequest::Fetch { path, index } => RequestView::Fetch(path@, index),
        OverlayRequest::Store { path, index, drive_id, hash, data } => RequestView::Store(
            path@,
            index,
            drive_id@,
            hash@,
            data@,
        ),
    }
}

/// `s` cut at its last space.
pub open spec fn split_last_space(s: Seq<char>) -> Option<(Seq<char>, Seq<char>)> {
    let k = last_index_spec(s, ' ');
    if k < 0 {
        None
    } else {
        Some((s.subrange(0, k), s.subrange(k + 1, s.len() as int)))
    }
}

/// The path and index of a `FETCH` request's text. The path is everything
/// between the verb and the last space, so it may hold spaces itself.
pub open spec fn fetch_spec(t: Seq<char>) -> Option<(Seq<char>, u64)> {
    if t.len() >= 6 && t.subrange(0, 6) == "FETCH "@ {
        match split_last_space(t.subrange(6, t.len() as int)) {
            Some((p, i)) => match parse_u64_spec(i) {
                Some(x) => Some((p, x)),
                None => None,
            },
            None => None,
        }
    } else {
        None
    }
}

/// Path, index, drive, hash and length of a `STORE` request's header line,
/// read from the right so that the path may hold spaces.
pub open spec fn store_header_spec(t: Seq<char>) -> Option<(Seq<char>, u64, Seq<char>, Seq<char>, u64)> {
    if t.len() >= 6 && t.subrange(0, 6) == "STORE "@ {
        match split_last_space(t.subrange(6, t.len() as int)) {
            Some((r1, len_s)) => match split_last_space(r1) {
                Some((r2, hash)) => match split_last_space(r2) {
                    Some((r3, drive)) => match split_last_space(r3) {
                        Some((path, idx_s)) => match (parse_u64_spec(idx_s), parse_u64_spec(len_s)) {
                            (Some(i), Some(l)) => Some((path, i, drive, hash, l)),
                            _ => None,
                        },
                        None => None,
                    },
                    None => None,
                },
                None => None,
            },
            None => None,
        }
    } else {
        None
    }
}

pub open spec fn store_verb() -> Seq<u8> {
    seq![0x53u8, 0x54u8, 0x4fu8, 0x52u8, 0x45u8, 0x20u8]
}

/// Index of the first newline in `b` at or after `from`, or -1.
pub open spec fn newline_from(b: Seq<u8>, from: int) -> int
    decreases b.len() - from,
{
    if from < 0 || from >= b.len() {
        -1
    } else if b[from] == 0x0au8 {
        from
    } else {
        newline_from(b, from + 1)
    }
}

/// The request a packet holds: a `STORE` header line in UTF-8 followed by
/// exactly as many bytes as it announces, or a `FETCH` line in UTF-8.
pub open spec fn request_spec(b: Seq<u8>) -> Option<RequestView> {
    if b.len() >= 6 && b.subrange(0, 6) == store_verb() {
        let nl = newline_from(b, 0);
        let header = b.subrange(0, nl);
        if nl < 0 || !valid_utf8(header) {
            None
        } else {
            match store_header_spec(decode_utf8(header)) {
                Some((p, i, d, h, l)) => if b.len() - nl - 1 == l {
                    Some(RequestView::Store(p, i, d, h, b.subrange(nl + 1, b.len() as int)))
                } else {
                    None
                },
                None => None,
            }
        }
    } else if valid_utf8(b) {
        match fetch_spec(decode_utf8(b)) {
            Some((p, i)) => Some(RequestView::Fetch(p, i)),
            None => None,
        }
    } else {
        None
    }
}

/// Relies on `std::str::from_utf8`: it accepts exactly the valid UTF-8
/// byte strings, and the text is their decoding.
#[verifier::external_body]
fn utf8_text(b: &[u8]) -> (r: Option<String>)
    ensures
        r is Some <==> valid_utf8(b@),
        r matches Some(s) ==> s@ == decode_utf8(b@),
{
    match std::str::from_utf8(b) {
        Ok(s) => Some(s.to_string()),
        Err(_) => None,
    }
}

fn split_at_last_space(s: &str) -> (r: Option<(String, String)>)
    ensures
        match r {
            Some((a, b)) => split_last_space(s@) == Some((a@, b@)),
            None => split_last_space(s@) is None,
        },
{
    match last_index_of(s, ' ') {
        Some(k) => {
            proof {
                crate::text::lemma_last_index_pub(s@, ' ');
            }
            let n = s.unicode_len();
            Some((String::from_str(s.substring_char(0, k)), String::from_str(s.substring_char(k + 1, n))))
        },
        None => None,
    }
}

fn starts_with_text(s: &str, prefix: &str) -> (r: bool)
    ensures
        r == (s@.len() >= prefix@.len() && s@.subrange(0, prefix@.len() as int) == prefix@),
{
    let n = s.unicode_len();
    let m = prefix.unicode_len();
    if n < m {
        return false;
    }
    let mut i: usize = 0;
    while i < m
        invariant
            m <= n,
            n == s@.len(),
            m == prefix@.len(),
            i <= m,
            forall|j: int| 0 <= j < i ==> s@[j] == prefix@[j],
        decreases m - i,
    {
        if s.get_char(i) != prefix.get_char(i) {
            assert(s@.subrange(0, m as int)[i as int] != prefix@[i as int]);
            return false;
        }
        i = i + 1;
    }
    assert(s@.subrange(0, m as int) =~= prefix@);
    true
}

fn parse_fetch(t: &str) -> (r: Option<(String, u64)>)
    ensures
        match r {
            Some((p, i)) => fetch_spec(t@) == Some((p@, i)),
            None => fetch_spec(t@) is None,
        },
{
    proof {
        reveal_strlit("FETCH ");
    }
    if !starts_with_text(t, "FETCH ") {
        return None;
    }
    let n = t.unicode_len();
    let rest = t.substring_char(6, n);
    match split_at_last_space(rest) {
        Some((p, i)) => match parse_u64(i.as_str()) {
            Some(x) => Some((p, x)),
            None => None,
        },
        None => None,
    }
}

fn parse_store_header(t: &str) -> (r: Option<(String, u64, String, String, u64)>)
    ensures
        match r {
            Some((p, i, d, h, l)) => store_header_spec(t@) == Some((p@, i, d@, h@, l)),
            None => store_header_spec(t@) is None,
        },
{
    proof {
        reveal_strlit("STORE ");
    }
    if !starts_with_text(t, "STORE ") {
        return None;
    }
    let n = t.unicode_len();
    let r0 = t.substring_char(6, n);
    let (r1, len_s) = match split_at_last_space(r0) {
        Some(x) => x,
        None => {
            return None;
        },
    };
    let (r2, hash) = match split_at_last_space(r1.as_str()) {
        Some(x) => x,
        None => {
            return None;
        },
    };
    let (r3, drive) = match split_at_last_space(r2.as_str()) {
        Some(x) => x,
        None => {
            return None;
        },
    };
    let (path, idx_s) = match split_at_last_space(r3.as_str()) {
        Some(x) => x,
        None => {
            return None;
        },
    };
    match (parse_u64(idx_s.as_str()), parse_u64(len_s.as_str())) {
        (Some(i), Some(l)) => Some((path, i, drive, hash, l)),
        _ => None,
    }
}

fn first_newline(b: &[u8]) -> (r: Option<usize>)
    ensures
        match r {
            Some(k) => newline_from(b@, 0) == k && k < b@.len(),
            None => newline_from(b@, 0) == -1,
        },
{
    let mut i: usize = 0;
    while i < b.len()
        invariant
            i <= b@.len(),
            newline_from(b@, 0) == newline_from(b@, i as int),
        decreases b@.len() - i,
    {
        if b[i] == 0x0au8 {
            return Some(i);
        }
        i = i + 1;
    }
    None
}

/// Reads a request that arrived over the overlay; None for anything that
/// is not a well-formed request.
pub fn parse_overlay_request(pkt: &[u8]) -> (r: Option<OverlayRequest>)
    ensures
        match r {
            Some(q) => request_spec(pkt@) == Some(request_view(q)),
            None => request_spec(pkt@) is None,
        },
{
    let is_store = pkt.len() >= 6 && pkt[0] == 0x53u8 && pkt[1] == 0x54u8 && pkt[2] == 0x4fu8
        && pkt[3] == 0x52u8 && pkt[4] == 0x45u8 && pkt[5] == 0x20u8;
    assert(is_store == (pkt@.len() >= 6 && pkt@.subrange(0, 6) == store_verb())) by {
        if pkt@.len() >= 6 && pkt@.subrange(0, 6) == store_verb() {
            assert(pkt@.subrange(0, 6)[0] == pkt@[0]);
            assert(pkt@.subrange(0, 6)[1] == pkt@[1]);
            assert(pkt@.subrange(0, 6)[2] == pkt@[2]);
            assert(pkt@.subrange(0, 6)[3] == pkt@[3]);
            assert(pkt@.subrange(0, 6)[4] == pkt@[4]);
            assert(pkt@.subrange(0, 6)[5] == pkt@[5]);
        }
        if is_store {
            assert(pkt@.subrange(0, 6) =~= store_verb());
        }
    }
    if is_store {
        let nl = match first_newline(pkt) {
            Some(k) => k,
            None => {
                return None;
            },
        };
        let header = match utf8_text(vstd::slice::slice_subrange(pkt, 0, nl)) {
            Some(h) => h,
            None => {
                return None;
            },
        };
        match parse_store_header(header.as_str()) {
            Some((path, index, drive_id, hash, length)) => {
                let rest = vstd::slice::slice_subrange(pkt, nl + 1, pkt.len());
                if rest.len() as u64 != length {
                    return None;
                }
                let data = vstd::slice::slice_to_vec(rest);
                Some(OverlayRequest::Store { path, index, drive_id, hash, data })
            },
            None => None,
        }
    } else {
        let text = match utf8_text(pkt) {
            Some(t) => t,
            None => {
                return None;
            },
        };
        match parse_fetch(text.as_str()) {
            Some((path, index)) => Some(OverlayRequest::Fetch { path, index }),
            None => None,
        }
    }
}

} // verus!
