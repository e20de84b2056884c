//! A structural scan of NBT bytes that measures how deeply lists and
//! compounds nest, so that records too deep to decode safely are refused
//! before they reach the decoder.

use vstd::prelude::*;

verus! {

/// The deepest nesting of lists and compounds that is decoded.
pub const MAX_NBT_DEPTH: u64 = 512;

/// An open container of the scan.
#[derive(Clone, Copy, Debug, PartialEq, Eq, Structural)]
pub enum NbtFrame {
    /// A compound: named tags up to an end tag.
    Compound,
    /// A list of `left` more elements of tag `elem`.
    List { elem: u8, left: u32 },
}

/// The big-endian `u16` at `p`.
pub open spec fn be_u16_at(d: Seq<u8>, p: int) -> int {
    d[p] as int * 256 + d[p + 1] as int
}

/// The big-endian `i32` at `p` as a length, or -1 where it is negative.
pub open spec fn be_len_at(d: Seq<u8>, p: int) -> int {
    if d[p] >= 128 {
        -1
    } else {
        d[p] as int * 0x100_0000 + d[p + 1] as int * 0x1_0000 + d[p + 2] as int * 0x100 + d[p
            + 3] as int
    }
}

/// Where `n` fixed-size elements of tag `t` starting at `p` end.
pub open spec fn fixed_end(p: int, n: int, t: u8) -> int {
    if t == 1 {
        p + n
    } else if t == 2 {
        p + n * 2
    } else if t == 3 || t == 5 {
        p + n * 4
    } else {
        p + n * 8
    }
}

/// Skips or opens the payload of tag `t` at `p`.
pub open spec fn payload_step(d: Seq<u8>, p: int, t: u8, s: Seq<NbtFrame>) -> Option<
    (int, Seq<NbtFrame>),
> {
    if 1 <= t <= 6 {
        if fixed_end(p, 1, t) <= d.len() {
            Some((fixed_end(p, 1, t), s))
        } else {
            None
        }
    } else if t == 7 || t == 11 || t == 12 {
        if p + 4 <= d.len() && be_len_at(d, p) >= 0 {
            let n = be_len_at(d, p);
            let q = if t == 7 {
                p + 4 + n
            } else if t == 11 {
                p + 4 + n * 4
            } else {
                p + 4 + n * 8
            };
            if q <= d.len() {
                Some((q, s))
            } else {
                None
            }
        } else {
            None
        }
    } else if t == 8 {
        if p + 2 <= d.len() && p + 2 + be_u16_at(d, p) <= d.len() {
            Some((p + 2 + be_u16_at(d, p), s))
        } else {
            None
        }
    } else if t == 9 {
        if p + 5 <= d.len() && be_len_at(d, p + 1) >= 0 && d[p] <= 12 && (d[p] != 0
            || be_len_at(d, p + 1) == 0) {
            Some((p + 5, s.push(NbtFrame::List { elem: d[p], left: be_len_at(d, p + 1) as u32 })))
        } else {
            None
        }
    } else if t == 10 {
        Some((p, s.push(NbtFrame::Compound)))
    } else {
        None
    }
}

/// Reads the next named tag of the compound on top of `s`: an end tag
/// closes it; any other tag is followed by its name and payload.
pub open spec fn compound_step(d: Seq<u8>, p: int, s: Seq<NbtFrame>) -> Option<
    (int, Seq<NbtFrame>),
> {
    if p < d.len() {
        if d[p] == 0 {
            Some((p + 1, s.drop_last()))
        } else if p + 3 <= d.len() && p + 3 + be_u16_at(d, p + 1) <= d.len() {
            payload_step(d, p + 3 + be_u16_at(d, p + 1), d[p], s)
        } else {
            None
        }
    } else {
        None
    }
}

/// Reads the next element of the list `elem`/`left` on top of `s`.
pub open spec fn list_step(d: Seq<u8>, p: int, s: Seq<NbtFrame>, elem: u8, left: u32) -> Option<
    (int, Seq<NbtFrame>),
> {
    let rest = s.drop_last();
    if 1 <= elem <= 6 {
        if fixed_end(p, left as int, elem) <= d.len() {
            Some((fixed_end(p, left as int, elem), rest.push(NbtFrame::List { elem, left: 0 })))
        } else {
            None
        }
    } else if elem == 10 {
        compound_step(
            d,
            p,
            rest.push(NbtFrame::List { elem, left: (left - 1) as u32 }).push(NbtFrame::Compound),
        )
    } else {
        payload_step(d, p, elem, rest.push(NbtFrame::List { elem, left: (left - 1) as u32 }))
    }
}

/// One step of the scan from position `p` with open containers `s`, or
/// `None` where the scan ends: the root compound is closed, or the bytes
/// break off or break the format.
pub open spec fn nbt_next(d: Seq<u8>, p: int, s: Seq<NbtFrame>) -> Option<(int, Seq<NbtFrame>)> {
    if s.len() == 0 {
        if p == 0 && 3 <= d.len() && d[0] == 10 && 3 + be_u16_at(d, 1) <= d.len() {
            Some((3 + be_u16_at(d, 1), seq![NbtFrame::Compound]))
        } else {
            None
        }
    } else {
        match s.last() {
            NbtFrame::Compound => compound_step(d, p, s),
            NbtFrame::List { elem, left } => if left == 0 {
                Some((p, s.drop_last()))
            } else {
                list_step(d, p, s, elem, left)
            },
        }
    }
}

proof fn lemma_nbt_next_progress(d: Seq<u8>, p: int, s: Seq<NbtFrame>)
    requires
        0 <= p <= d.len(),
        nbt_next(d, p, s) is Some,
    ensures
        ({
            let (q, t) = nbt_next(d, p, s)->Some_0;
            p <= q <= d.len() && (p < q || t.len() < s.len())
        }),
{
    if s.len() > 0 {
        if let NbtFrame::List { elem, left } = s.last() {
            if left != 0 && 1 <= elem <= 6 {
                assert(fixed_end(p, left as int, elem) > p) by (nonlinear_arith)
                    requires
                        left >= 1,
                        1 <= elem <= 6,
                        fixed_end(p, left as int, elem) == if elem == 1 {
                            p + left
                        } else if elem == 2 {
                            p + left * 2
                        } else if elem == 3 || elem == 5 {
                            p + left * 4
                        } else {
                            p + left * 8
                        },
                ;
            }
        }
    }
}

/// The deepest nesting the scan reaches from position `p` with open
/// containers `s`, having reached `m` so far.
pub open spec fn nbt_scan(d: Seq<u8>, p: int, s: Seq<NbtFrame>, m: nat) -> nat
    decreases d.len() - p, s.len(),
    when 0 <= p <= d.len()
    via lemma_nbt_scan_decreases
{
    match nbt_next(d, p, s) {
        None => m,
        Some((q, t)) => nbt_scan(d, q, t, if t.len() > m {
            t.len()
        } else {
            m
        }),
    }
}

#[via_fn]
proof fn lemma_nbt_scan_decreases(d: Seq<u8>, p: int, s: Seq<NbtFrame>, m: nat) {
    if nbt_next(d, p, s) is Some {
        lemma_nbt_next_progress(d, p, s);
    }
}

/// How deeply lists and compounds nest in the NBT record `d`, as far as
/// its bytes can be read.
pub open spec fn nbt_depth(d: Seq<u8>) -> nat {
    nbt_scan(d, 0, Seq::empty(), 0)
}

/// The scan never reports less than it has reached already.
proof fn lemma_nbt_scan_at_least(d: Seq<u8>, p: int, s: Seq<NbtFrame>, m: nat)
    requires
        0 <= p <= d.len(),
    ensures
        nbt_scan(d, p, s, m) >= m,
    decreases d.len() - p, s.len(),
{
    if let Some((q, t)) = nbt_next(d, p, s) {
        lemma_nbt_next_progress(d, p, s);
        lemma_nbt_scan_at_least(d, q, t, if t.len() > m { t.len() } else { m });
    }
}

/// Whether an executable step agrees with a step of the scan.
pub open spec fn step_agrees(
    x: Option<(int, Seq<NbtFrame>)>,
    r: Option<usize>,
    s: Seq<NbtFrame>,
) -> bool {
    match x {
        None => r is None,
        Some((q, t)) => r == Some(q as usize) && s == t,
    }
}

fn be_u16(d: &[u8], p: usize) -> (r: usize)
    requires
        p + 2 <= d@.len(),
    ensures
        r == be_u16_at(d@, p as int),
{
    d[p] as usize * 256 + d[p + 1] as usize
}

fn be_len(d: &[u8], p: usize) -> (r: Option<u64>)
    requires
        p + 4 <= d@.len(),
    ensures
        r is None <==> be_len_at(d@, p as int) < 0,
        r matches Some(n) ==> n == be_len_at(d@, p as int) && n < 0x8000_0000,
{
    if d[p] >= 128 {
        None
    } else {
        Some(
            d[p] as u64 * 0x100_0000 + d[p + 1] as u64 * 0x1_0000 + d[p + 2] as u64 * 0x100 + d[p
                + 3] as u64,
        )
    }
}

fn payload(d: &[u8], p: usize, t: u8, s: &mut Vec<NbtFrame>) -> (r: Option<usize>)
    requires
        p <= d@.len(),
    ensures
        step_agrees(payload_step(d@, p as int, t, old(s)@), r, final(s)@),
{
    let len = d.len();
    if 1 <= t && t <= 6 {
        let size: usize = if t == 1 {
            1
        } else if t == 2 {
            2
        } else if t == 3 || t == 5 {
            4
        } else {
            8
        };
        if size <= len - p {
            Some(p + size)
        } else {
            None
        }
    } else if t == 7 || t == 11 || t == 12 {
        if len - p < 4 {
            return None;
        }
        match be_len(d, p) {
            None => None,
            Some(n) => {
                let bytes: u64 = if t == 7 {
                    n
                } else if t == 11 {
                    n * 4
                } else {
                    n * 8
                };
                if bytes <= (len - p - 4) as u64 {
                    Some(p + 4 + bytes as usize)
                } else {
                    None
                }
            },
        }
    } else if t == 8 {
        if len - p < 2 {
            return None;
        }
        let n = be_u16(d, p);
        if n <= len - p - 2 {
            Some(p + 2 + n)
        } else {
            None
        }
    } else if t == 9 {
        if len - p < 5 {
            return None;
        }
        match be_len(d, p + 1) {
            None => None,
            Some(n) => {
                let e = d[p];
                if e <= 12 && (e != 0 || n == 0) {
                    s.push(NbtFrame::List { elem: e, left: n as u32 });
                    Some(p + 5)
                } else {
                    None
                }
            },
        }
    } else if t == 10 {
        s.push(NbtFrame::Compound);
        Some(p)
    } else {
        None
    }
}

fn compound(d: &[u8], p: usize, s: &mut Vec<NbtFrame>) -> (r: Option<usize>)
    requires
        p <= d@.len(),
        old(s)@.len() > 0,
    ensures
        step_agrees(compound_step(d@, p as int, old(s)@), r, final(s)@),
{
    let len = d.len();
    if p >= len {
        return None;
    }
    if d[p] == 0 {
        s.pop();
        return Some(p + 1);
    }
    if len - p < 3 {
        return None;
    }
    let n = be_u16(d, p + 1);
    if n > len - p - 3 {
        return None;
    }
    payload(d, p + 3 + n, d[p], s)
}

fn list(d: &[u8], p: usize, s: &mut Vec<NbtFrame>, elem: u8, left: u32) -> (r: Option<usize>)
    requires
        p <= d@.len(),
        old(s)@.len() > 0,
        left > 0,
    ensures
        step_agrees(list_step(d@, p as int, old(s)@, elem, left), r, final(s)@),
{
    let len = d.len();
    if 1 <= elem && elem <= 6 {
        let n = left as u64;
        let bytes: u64 = if elem == 1 {
            n
        } else if elem == 2 {
            n * 2
        } else if elem == 3 || elem == 5 {
            n * 4
        } else {
            n * 8
        };
        if bytes <= (len - p) as u64 {
            s.pop();
            s.push(NbtFrame::List { elem, left: 0 });
            return Some(p + bytes as usize);
        } else {
            return None;
        }
    }
    s.pop();
    s.push(NbtFrame::List { elem, left: left - 1 });
    if elem == 10 {
        s.push(NbtFrame::Compound);
        compound(d, p, s)
    } else {
        payload(d, p, elem, s)
    }
}

fn next(d: &[u8], p: usize, s: &mut Vec<NbtFrame>) -> (r: Option<usize>)
    requires
        p <= d@.len(),
    ensures
        step_agrees(nbt_next(d@, p as int, old(s)@), r, final(s)@),
{
    let len = d.len();
    if s.len() == 0 {
        if p == 0 && 3 <= len && d[0] == 10 {
            let n = be_u16(d, 1);
            if n <= len - 3 {
                s.push(NbtFrame::Compound);
                assert(s@ =~= seq![NbtFrame::Compound]);
                return Some(3 + n);
            }
        }
        return None;
    }
    match s[s.len() - 1] {
        NbtFrame::Compound => compound(d, p, s),
        NbtFrame::List { elem, left } => {
            if left == 0 {
                s.pop();
                Some(p)
            } else {
                list(d, p, s, elem, left)
            }
        },
    }
}

/// Whether lists and compounds nest at most `limit` deep in `d`.
pub fn nbt_depth_within(d: &[u8], limit: u64) -> (r: bool)
    ensures
        r == (nbt_depth(d@) <= limit),
{
    let mut s: Vec<NbtFrame> = Vec::new();
    let mut p: usize = 0;
    let mut m: u64 = 0;
    loop
        invariant
            p <= d@.len(),
            m <= limit,
            nbt_scan(d@, p as int, s@, m as nat) == nbt_depth(d@),
        decreases d@.len() - p, s@.len(),
    {
        let ghost (p0, s0, m0) = (p as int, s@, m as nat);
        let step = next(d, p, &mut s);
        match step {
            None => {
                return true;
            },
            Some(q) => {
                let ghost x = nbt_next(d@, p0, s0);
                proof {
                    assert(step_agrees(x, step, s@));
                    assert(x is Some);
                    lemma_nbt_next_progress(d@, p0, s0);
                    assert(0 <= x->Some_0.0 <= d@.len());
                    assert(d@.len() == d.len());
                    assert(step == Some(q));
                    assert(q as int == x->Some_0.0);
                    assert(s@ == x->Some_0.1);
                    assert(nbt_scan(d@, p0, s0, m0) == nbt_scan(
                        d@,
                        x->Some_0.0,
                        x->Some_0.1,
                        if x->Some_0.1.len() > m0 {
                            x->Some_0.1.len()
                        } else {
                            m0
                        },
                    ));
                }
                p = q;
                let depth = s.len() as u64;
                if depth > m {
                    m = depth;
                }
                assert(nbt_scan(d@, p0, s0, m0) == nbt_scan(d@, p as int, s@, m as nat));
                if m > limit {
                    proof {
                        lemma_nbt_scan_at_least(d@, p as int, s@, m as nat);
                    }
                    return false;
                }
            },
        }
    }
}

} // verus!
