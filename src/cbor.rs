//! A structural scan of a DAG-CBOR block: every declared length fits in the
//! bytes that follow it, and containers nest at most a fixed depth. Blocks that
//! pass it can be decoded without allocating beyond their size or recursing
//! without bound.
use vstd::prelude::*;

verus! {

/// How deeply containers (arrays, maps, tags) may nest in a scanned block.
pub const MAX_DEPTH: usize = 64;

pub open spec fn be2(b: Seq<u8>, p: int) -> int {
    b[p] as int * 256 + b[p + 1] as int
}

pub open spec fn be4(b: Seq<u8>, p: int) -> int {
    be2(b, p) * 65536 + be2(b, p + 2)
}

pub open spec fn be8(b: Seq<u8>, p: int) -> int {
    be4(b, p) * 4294967296 + be4(b, p + 4)
}

/// The header of the item at `p`: its major type, its argument, and where
/// its content starts. Indefinite lengths and reserved values are refused.
pub open spec fn head(b: Seq<u8>, p: int) -> Option<(int, int, int)> {
    if p < 0 || p >= b.len() {
        None
    } else {
        let major = b[p] as int / 32;
        let info = b[p] as int % 32;
        if info < 24 {
            Some((major, info, p + 1))
        } else if info == 24 && p + 2 <= b.len() {
            Some((major, b[p + 1] as int, p + 2))
        } else if info == 25 && p + 3 <= b.len() {
            Some((major, be2(b, p + 1), p + 3))
        } else if info == 26 && p + 5 <= b.len() {
            Some((major, be4(b, p + 1), p + 5))
        } else if info == 27 && p + 9 <= b.len() {
            Some((major, be8(b, p + 1), p + 9))
        } else {
            None
        }
    }
}

/// Where the item at `p` ends, if it is well sized within `depth` levels.
pub open spec fn item_end(b: Seq<u8>, p: int, depth: int) -> Option<int>
    decreases depth, 0int,
{
    match head(b, p) {
        None => None,
        Some((major, arg, q)) => if major == 0 || major == 1 || major == 7 {
            Some(q)
        } else if major == 2 || major == 3 {
            if arg <= b.len() - q { Some(q + arg) } else { None }
        } else if depth <= 0 {
            None
        } else if major == 4 {
            if arg <= b.len() - q { items_end(b, q, arg, depth - 1) } else { None }
        } else if major == 5 {
            if arg <= (b.len() - q) / 2 { items_end(b, q, 2 * arg, depth - 1) } else { None }
        } else {
            item_end(b, q, depth - 1)
        },
    }
}

/// Where `n` consecutive items from `p` end, if each is well sized.
pub open spec fn items_end(b: Seq<u8>, p: int, n: int, depth: int) -> Option<int>
    decreases depth, n,
{
    if n <= 0 || depth < 0 {
        Some(p)
    } else {
        match item_end(b, p, depth) {
            None => None,
            Some(q) => items_end(b, q, n - 1, depth),
        }
    }
}

/// A block that decodes within bounded memory and depth.
pub open spec fn well_sized(b: Seq<u8>) -> bool {
    item_end(b, 0, MAX_DEPTH as int) is Some
}

fn read_head(b: &Vec<u8>, p: usize) -> (r: Option<(u8, u64, usize)>)
    ensures
        match r {
            Some((m, a, q)) => head(b@, p as int) == Some((m as int, a as int, q as int)),
            None => head(b@, p as int) is None,
        },
{
    if p >= b.len() {
        return None;
    }
    let major = b[p] / 32;
    let info = b[p] % 32;
    let len = b.len();
    if info < 24 {
        Some((major, info as u64, p + 1))
    } else if info == 24 && len - p >= 2 {
        Some((major, b[p + 1] as u64, p + 2))
    } else if info == 25 && len - p >= 3 {
        Some((major, b[p + 1] as u64 * 256 + b[p + 2] as u64, p + 3))
    } else if info == 26 && len - p >= 5 {
        let v = b[p + 1] as u64 * 16777216 + b[p + 2] as u64 * 65536 + b[p + 3] as u64 * 256 + b[p + 4] as u64;
        Some((major, v, p + 5))
    } else if info == 27 && len - p >= 9 {
        let hi = b[p + 1] as u64 * 16777216 + b[p + 2] as u64 * 65536 + b[p + 3] as u64 * 256 + b[p + 4] as u64;
        let lo = b[p + 5] as u64 * 16777216 + b[p + 6] as u64 * 65536 + b[p + 7] as u64 * 256 + b[p + 8] as u64;
        assert(hi <= 4294967295 && lo <= 4294967295);
        Some((major, hi * 4294967296 + lo, p + 9))
    } else {
        None
    }
}

fn scan_item(b: &Vec<u8>, p: usize, depth: usize) -> (r: Option<usize>)
    ensures
        match r {
            Some(q) => item_end(b@, p as int, depth as int) == Some(q as int),
            None => item_end(b@, p as int, depth as int) is None,
        },
    decreases depth, 0int,
{
    let (major, arg, q) = match read_head(b, p) {
        Some(h) => h,
        None => return None,
    };
    let rest = (b.len() - q) as u64;
    if major == 0 || major == 1 || major == 7 {
        Some(q)
    } else if major == 2 || major == 3 {
        if arg <= rest { Some(q + arg as usize) } else { None }
    } else if depth == 0 {
        None
    } else if major == 4 {
        if arg <= rest { scan_items(b, q, arg, depth - 1) } else { None }
    } else if major == 5 {
        if arg <= rest / 2 { scan_items(b, q, 2 * arg, depth - 1) } else { None }
    } else {
        scan_item(b, q, depth - 1)
    }
}

fn scan_items(b: &Vec<u8>, p: usize, n: u64, depth: usize) -> (r: Option<usize>)
    ensures
        match r {
            Some(q) => items_end(b@, p as int, n as int, depth as int) == Some(q as int),
            None => items_end(b@, p as int, n as int, depth as int) is None,
        },
    decreases depth, n,
{
    if n == 0 {
        return Some(p);
    }
    match scan_item(b, p, depth) {
        None => None,
        Some(q) => scan_items(b, q, n - 1, depth),
    }
}

/// Whether a block is well sized: safe to hand to the decoder.
pub fn is_well_sized(b: &Vec<u8>) -> (r: bool)
    ensures
        r == well_sized(b@),
{
    scan_item(b, 0, MAX_DEPTH).is_some()
}

} // verus!
