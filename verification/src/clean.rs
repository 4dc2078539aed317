//! Cleaning (removal of terminal escape sequences and control bytes) and
//! trimming (removal of leading and trailing whitespace) of an input, as a
//! byte-at-a-time process that can be fed an input in pieces.
use vstd::prelude::*;
use crate::bytes::{is_whitespace, is_control_or_ansi};

verus! {

/// The escape byte that starts a terminal control sequence.
pub const ESC: u8 = 0x1B;

/// Where the cleaner stands within terminal escape sequences.
#[derive(Clone, Copy, PartialEq, Eq, Structural, Debug)]
pub enum EscState {
    /// Outside any sequence.
    Ground,
    /// Right after ESC.
    Escape,
    /// Within the intermediate bytes (0x20..=0x2F) of `ESC` + intermediates + final byte.
    Intermediate,
    /// Within a CSI sequence (`ESC [` ... final byte 0x40..=0x7E).
    Csi,
    /// Within a string sequence (`ESC ]`, `ESC P`, `ESC X`, `ESC ^`, `ESC _`), ended by BEL or `ESC \`.
    Str,
    /// Right after an ESC within a string sequence.
    StrEscape,
}

/// One step of the cleaner: the next state after byte `b`, and the byte kept, if any.
/// Bytes of escape sequences and control bytes (other than tab) are dropped.
pub open spec fn clean_step(st: EscState, b: u8) -> (EscState, Option<u8>) {
    match st {
        EscState::Ground => if b == ESC {
            (EscState::Escape, None)
        } else if crate::bytes::spec_is_control(b) {
            (EscState::Ground, None)
        } else {
            (EscState::Ground, Some(b))
        },
        EscState::Escape => if b == 0x5B {
            (EscState::Csi, None)
        } else if b == 0x5D || b == 0x50 || b == 0x58 || b == 0x5E || b == 0x5F {
            (EscState::Str, None)
        } else if 0x20 <= b <= 0x2F {
            (EscState::Intermediate, None)
        } else {
            (EscState::Ground, None)
        },
        EscState::Intermediate => if 0x20 <= b <= 0x2F {
            (EscState::Intermediate, None)
        } else {
            (EscState::Ground, None)
        },
        EscState::Csi => if 0x40 <= b <= 0x7E {
            (EscState::Ground, None)
        } else {
            (EscState::Csi, None)
        },
        EscState::Str => if b == 0x07 {
            (EscState::Ground, None)
        } else if b == ESC {
            (EscState::StrEscape, None)
        } else {
            (EscState::Str, None)
        },
        EscState::StrEscape => if b == 0x5C || b == 0x07 {
            (EscState::Ground, None)
        } else if b == ESC {
            (EscState::StrEscape, None)
        } else {
            (EscState::Str, None)
        },
    }
}

/// One step of the trimmer on a kept byte `c`: whitespace before the first
/// other byte is dropped; whitespace after it is held back until another
/// byte shows it is not trailing. Returns whether a non-whitespace byte has
/// been seen, the held whitespace, and the bytes given out.
pub open spec fn trim_step(started: bool, held: Seq<u8>, c: u8) -> (bool, Seq<u8>, Seq<u8>) {
    if crate::bytes::spec_is_whitespace(c) {
        if started {
            (true, held.push(c), Seq::empty())
        } else {
            (false, held, Seq::empty())
        }
    } else {
        (true, Seq::empty(), held.push(c))
    }
}

/// The state of processing part of an input.
pub struct StreamState {
    pub esc: EscState,
    pub started: bool,
    pub held: Seq<u8>,
}

/// The state before the first byte of an input.
pub open spec fn initial_stream() -> StreamState {
    StreamState { esc: EscState::Ground, started: false, held: Seq::empty() }
}

/// Processing one byte: the next state and the bytes given out.
pub open spec fn feed_byte(clean: bool, trim: bool, st: StreamState, b: u8) -> (StreamState, Seq<u8>) {
    let (esc, kept) = if clean { clean_step(st.esc, b) } else { (st.esc, Some(b)) };
    match kept {
        None => (StreamState { esc, ..st }, Seq::empty()),
        Some(c) => if trim {
            let (started, held, out) = trim_step(st.started, st.held, c);
            (StreamState { esc, started, held }, out)
        } else {
            (StreamState { esc, ..st }, seq![c])
        },
    }
}

/// Processing the bytes `s` in order from state `st`.
pub open spec fn feed(clean: bool, trim: bool, st: StreamState, s: Seq<u8>) -> (StreamState, Seq<u8>)
    decreases s.len(),
{
    if s.len() == 0 {
        (st, Seq::empty())
    } else {
        let (st1, out1) = feed(clean, trim, st, s.drop_last());
        let (st2, out2) = feed_byte(clean, trim, st1, s.last());
        (st2, out1 + out2)
    }
}

/// What processing a whole input yields; whitespace still held back at its
/// end is trailing and dropped.
pub open spec fn processed(s: Seq<u8>, clean: bool, trim: bool) -> Seq<u8> {
    feed(clean, trim, initial_stream(), s).1
}

/// `s` with escape sequences and control bytes removed.
pub open spec fn strip_controls(s: Seq<u8>) -> Seq<u8> {
    processed(s, true, false)
}

/// The first index at or after `i` that does not hold whitespace.
pub open spec fn skip_ws_forward(s: Seq<u8>, i: int) -> int
    decreases s.len() - i,
{
    if 0 <= i < s.len() && crate::bytes::spec_is_whitespace(s[i]) {
        skip_ws_forward(s, i + 1)
    } else {
        i
    }
}

/// The smallest `e` with `lo <= e <= j` such that `s[e..j]` is all whitespace.
pub open spec fn skip_ws_backward(s: Seq<u8>, lo: int, j: int) -> int
    decreases j - lo,
{
    if lo < j && crate::bytes::spec_is_whitespace(s[j - 1]) {
        skip_ws_backward(s, lo, j - 1)
    } else {
        j
    }
}

/// `s` without its leading and trailing whitespace.
pub open spec fn trim_ws(s: Seq<u8>) -> Seq<u8> {
    let a = skip_ws_forward(s, 0);
    s.subrange(a, skip_ws_backward(s, a, s.len() as int))
}

pub proof fn lemma_skip_ws_forward_bounds(s: Seq<u8>, i: int)
    requires
        0 <= i <= s.len(),
    ensures
        i <= skip_ws_forward(s, i) <= s.len(),
        forall|k: int| i <= k < skip_ws_forward(s, i) ==> crate::bytes::spec_is_whitespace(#[trigger] s[k]),
        skip_ws_forward(s, i) < s.len() ==> !crate::bytes::spec_is_whitespace(s[skip_ws_forward(s, i)]),
    decreases s.len() - i,
{
    if i < s.len() && crate::bytes::spec_is_whitespace(s[i]) {
        lemma_skip_ws_forward_bounds(s, i + 1);
    }
}

pub proof fn lemma_skip_ws_backward_bounds(s: Seq<u8>, lo: int, j: int)
    requires
        0 <= lo <= j <= s.len(),
    ensures
        lo <= skip_ws_backward(s, lo, j) <= j,
        forall|k: int| skip_ws_backward(s, lo, j) <= k < j ==> crate::bytes::spec_is_whitespace(#[trigger] s[k]),
        lo < skip_ws_backward(s, lo, j) ==> !crate::bytes::spec_is_whitespace(s[skip_ws_backward(s, lo, j) - 1]),
    decreases j - lo,
{
    if lo < j && crate::bytes::spec_is_whitespace(s[j - 1]) {
        lemma_skip_ws_backward_bounds(s, lo, j - 1);
    }
}


proof fn lemma_skip_ws_forward_unique(s: Seq<u8>, x: int)
    requires
        0 <= x <= s.len(),
        forall|k: int| 0 <= k < x ==> crate::bytes::spec_is_whitespace(#[trigger] s[k]),
        x < s.len() ==> !crate::bytes::spec_is_whitespace(s[x]),
    ensures
        skip_ws_forward(s, 0) == x,
{
    lemma_skip_ws_forward_bounds(s, 0);
    let a = skip_ws_forward(s, 0);
    if a < x {
        assert(crate::bytes::spec_is_whitespace(s[a]));
    } else if x < a {
        assert(crate::bytes::spec_is_whitespace(s[x]));
    }
}

proof fn lemma_skip_ws_backward_unique(s: Seq<u8>, lo: int, x: int)
    requires
        0 <= lo <= x <= s.len(),
        forall|k: int| x <= k < s.len() ==> crate::bytes::spec_is_whitespace(#[trigger] s[k]),
        lo < x ==> !crate::bytes::spec_is_whitespace(s[x - 1]),
    ensures
        skip_ws_backward(s, lo, s.len() as int) == x,
{
    lemma_skip_ws_backward_bounds(s, lo, s.len() as int);
    let b = skip_ws_backward(s, lo, s.len() as int);
    if b < x {
        assert(crate::bytes::spec_is_whitespace(s[x - 1]));
    } else if x < b {
        assert(crate::bytes::spec_is_whitespace(s[b - 1]));
    }
}

/// Trimming a sequence kept byte by byte, as the trimmer does.
pub open spec fn trim_run(started: bool, held: Seq<u8>, t: Seq<u8>) -> (bool, Seq<u8>, Seq<u8>)
    decreases t.len(),
{
    if t.len() == 0 {
        (started, held, Seq::empty())
    } else {
        let (s1, h1, o1) = trim_run(started, held, t.drop_last());
        let (s2, h2, o2) = trim_step(s1, h1, t.last());
        (s2, h2, o1 + o2)
    }
}

proof fn lemma_trim_run_shape(t: Seq<u8>)
    ensures ({
        let (started, held, out) = trim_run(false, Seq::empty(), t);
        let a = skip_ws_forward(t, 0);
        &&& !started ==> out.len() == 0 && held.len() == 0 && a == t.len()
        &&& started ==> {
            &&& a < t.len()
            &&& out.len() > 0
            &&& !crate::bytes::spec_is_whitespace(out.last())
            &&& forall|k: int| 0 <= k < held.len() ==> crate::bytes::spec_is_whitespace(#[trigger] held[k])
            &&& out + held == t.subrange(a, t.len() as int)
        }
    }),
    decreases t.len(),
{
    if t.len() == 0 {
        lemma_skip_ws_forward_bounds(t, 0);
    } else {
        let p = t.drop_last();
        let c = t.last();
        lemma_trim_run_shape(p);
        let (s1, h1, o1) = trim_run(false, Seq::empty(), p);
        let a1 = skip_ws_forward(p, 0);
        lemma_skip_ws_forward_bounds(p, 0);
        let (started, held, out) = trim_run(false, Seq::empty(), t);
        if s1 {
            assert forall|k: int| 0 <= k < a1 implies crate::bytes::spec_is_whitespace(#[trigger] t[k]) by {
                assert(t[k] == p[k]);
            }
            lemma_skip_ws_forward_unique(t, a1);
            assert(t.subrange(a1, t.len() as int) =~= p.subrange(a1, p.len() as int).push(c));
            if crate::bytes::spec_is_whitespace(c) {
                assert(out =~= o1);
                assert(held =~= h1.push(c));
                assert(out + held =~= (o1 + h1).push(c));
            } else {
                assert(held =~= Seq::<u8>::empty());
                assert(out =~= o1 + h1.push(c));
                assert(out + held =~= (o1 + h1).push(c));
            }
        } else {
            assert forall|k: int| 0 <= k < p.len() implies crate::bytes::spec_is_whitespace(#[trigger] t[k]) by {
                assert(t[k] == p[k]);
                lemma_skip_ws_forward_bounds(p, 0);
            }
            if crate::bytes::spec_is_whitespace(c) {
                lemma_skip_ws_forward_unique(t, t.len() as int);
                assert(out =~= o1);
            } else {
                lemma_skip_ws_forward_unique(t, p.len() as int);
                assert(out =~= seq![c]);
                assert(held =~= Seq::<u8>::empty());
                assert(t.subrange(p.len() as int, t.len() as int) =~= seq![c]);
                assert(out + held =~= seq![c]);
            }
        }
    }
}

proof fn lemma_trim_run_is_trim(t: Seq<u8>)
    ensures
        trim_run(false, Seq::empty(), t).2 == trim_ws(t),
{
    lemma_trim_run_shape(t);
    let tr = trim_run(false, Seq::empty(), t);
    let out = tr.2;
    let held = tr.1;
    let a = skip_ws_forward(t, 0);
    lemma_skip_ws_forward_bounds(t, 0);
    if tr.0 {
        let x = a + out.len();
        let whole = out + held;
        assert(whole == t.subrange(a, t.len() as int));
        assert(whole.len() == t.len() - a);
        assert forall|k: int| x <= k < t.len() implies crate::bytes::spec_is_whitespace(#[trigger] t[k]) by {
            assert(t[k] == whole[k - a]);
            assert(whole[k - a] == held[k - x]);
        }
        assert(t[x - 1] == whole[out.len() - 1]);
        assert(whole[out.len() - 1] == out.last());
        lemma_skip_ws_backward_unique(t, a, x);
        assert(t.subrange(a, x) =~= out);
    } else {
        assert(t.subrange(a, a) =~= out);
        lemma_skip_ws_backward_bounds(t, a, t.len() as int);
    }
}

proof fn lemma_feed_trim_split(clean: bool, st: StreamState, s: Seq<u8>)
    ensures ({
        let (st_t, out_t) = feed(clean, true, st, s);
        let (st_n, out_n) = feed(clean, false, st, s);
        let (started, held, out) = trim_run(st.started, st.held, out_n);
        &&& st_t.esc == st_n.esc
        &&& st_n.started == st.started && st_n.held == st.held
        &&& st_t.started == started && st_t.held == held && out_t == out
    }),
    decreases s.len(),
{
    if s.len() > 0 {
        let p = s.drop_last();
        let b = s.last();
        lemma_feed_trim_split(clean, st, p);
        let (st_n1, out_n1) = feed(clean, false, st, p);
        let (st_n, out_n) = feed(clean, false, st, s);
        let (esc, kept) = if clean { clean_step(st_n1.esc, b) } else { (st_n1.esc, Some(b)) };
        match kept {
            None => {
                assert(out_n =~= out_n1);
            },
            Some(c) => {
                assert(out_n =~= out_n1.push(c));
                assert(out_n.drop_last() =~= out_n1);
                let (s1, h1, o1) = trim_run(st.started, st.held, out_n1);
                let (s2, h2, o2) = trim_step(s1, h1, c);
                assert(trim_run(st.started, st.held, out_n) == (s2, h2, o1 + o2));
            },
        }
    }
}

/// What processing gives out, together with the whitespace it still holds
/// back, is never longer than the whitespace held back before plus the bytes
/// fed.
pub proof fn lemma_feed_len_bound(clean: bool, trim: bool, st: StreamState, s: Seq<u8>)
    ensures
        feed(clean, trim, st, s).1.len() + feed(clean, trim, st, s).0.held.len() <= st.held.len() + s.len(),
    decreases s.len(),
{
    if s.len() > 0 {
        lemma_feed_len_bound(clean, trim, st, s.drop_last());
    }
}

/// Feeding `a` then `b` is feeding `a + b`.
pub proof fn lemma_feed_append(clean: bool, trim: bool, st: StreamState, a: Seq<u8>, b: Seq<u8>)
    ensures ({
        let (st1, o1) = feed(clean, trim, st, a);
        let (st2, o2) = feed(clean, trim, st1, b);
        feed(clean, trim, st, a + b) == (st2, o1 + o2)
    }),
    decreases b.len(),
{
    if b.len() == 0 {
        assert(a + b =~= a);
        let o1 = feed(clean, trim, st, a).1;
        assert(o1 + Seq::<u8>::empty() =~= o1);
    } else {
        assert((a + b).drop_last() =~= a + b.drop_last());
        assert((a + b).last() == b.last());
        lemma_feed_append(clean, trim, st, a, b.drop_last());
        let (st1, o1) = feed(clean, trim, st, a);
        let (st2, o2) = feed(clean, trim, st1, b.drop_last());
        let (st3, o3) = feed_byte(clean, trim, st2, b.last());
        assert(o1 + o2 + o3 =~= o1 + (o2 + o3));
    }
}

proof fn lemma_feed_plain(st: StreamState, s: Seq<u8>)
    ensures
        feed(false, false, st, s) == (st, s),
    decreases s.len(),
{
    if s.len() > 0 {
        lemma_feed_plain(st, s.drop_last());
        assert(s.drop_last().push(s.last()) =~= s);
    }
}

/// Processing is cleaning followed by trimming: with both options the
/// result is the cleaned input without leading and trailing whitespace,
/// with one option it is that option's result, with none the input itself.
pub proof fn lemma_processed_is_clean_then_trim(s: Seq<u8>, clean: bool, trim: bool)
    ensures
        processed(s, clean, trim) == ({
            let c = if clean { strip_controls(s) } else { s };
            if trim { trim_ws(c) } else { c }
        }),
{
    lemma_feed_plain(initial_stream(), s);
    if trim {
        lemma_feed_trim_split(clean, initial_stream(), s);
        lemma_trim_run_is_trim(feed(clean, false, initial_stream(), s).1);
    }
}

proof fn lemma_clean_feed(st: StreamState, s: Seq<u8>)
    ensures
        forall|k: int| 0 <= k < feed(true, false, st, s).1.len()
            ==> !crate::bytes::spec_is_control(#[trigger] feed(true, false, st, s).1[k]),
        feed(true, false, st, s).1.len() <= s.len(),
        feed(true, false, st, s).0.started == st.started,
        feed(true, false, st, s).0.held == st.held,
        st.esc == EscState::Ground && (forall|k: int| 0 <= k < s.len() ==> !crate::bytes::spec_is_control(#[trigger] s[k]))
            ==> feed(true, false, st, s) == (st, s),
    decreases s.len(),
{
    if s.len() > 0 {
        let p = s.drop_last();
        lemma_clean_feed(st, p);
        let (st1, o1) = feed(true, false, st, p);
        let out = feed(true, false, st, s).1;
        assert forall|k: int| 0 <= k < out.len() implies !crate::bytes::spec_is_control(#[trigger] out[k]) by {
            if k < o1.len() {
                assert(out[k] == o1[k]);
            }
        }
        if st.esc == EscState::Ground && (forall|k: int| 0 <= k < s.len() ==> !crate::bytes::spec_is_control(#[trigger] s[k])) {
            assert(!crate::bytes::spec_is_control(s[s.len() - 1]));
            assert forall|k: int| 0 <= k < p.len() implies !crate::bytes::spec_is_control(#[trigger] p[k]) by {
                assert(p[k] == s[k]);
            }
            assert(p.push(s.last()) =~= s);
        }
    }
}

/// Cleaning leaves no control byte (nor ESC or DEL) behind, never makes the
/// input longer, keeps an input free of control bytes as it is, and so
/// cleaning twice is the same as cleaning once.
pub proof fn lemma_strip_controls_laws(s: Seq<u8>)
    ensures
        forall|k: int| 0 <= k < strip_controls(s).len() ==> !crate::bytes::spec_is_control(#[trigger] strip_controls(s)[k]),
        strip_controls(s).len() <= s.len(),
        (forall|k: int| 0 <= k < s.len() ==> !crate::bytes::spec_is_control(#[trigger] s[k])) ==> strip_controls(s) == s,
        strip_controls(strip_controls(s)) == strip_controls(s),
{
    lemma_clean_feed(initial_stream(), s);
    lemma_clean_feed(initial_stream(), strip_controls(s));
}

/// Trimming removes exactly the whitespace at both ends: what is left is a
/// contiguous piece of the input that neither starts nor ends with
/// whitespace, everything cut before and after it is whitespace, and
/// trimming again changes nothing.
pub proof fn lemma_trim_ws_laws(s: Seq<u8>)
    ensures
        trim_ws(s).len() > 0 ==> !crate::bytes::spec_is_whitespace(trim_ws(s)[0]) && !crate::bytes::spec_is_whitespace(trim_ws(s).last()),
        exists|a: int| #![trigger s.subrange(a, a + trim_ws(s).len())]
            0 <= a && a + trim_ws(s).len() <= s.len()
            && s.subrange(a, a + trim_ws(s).len()) == trim_ws(s)
            && (forall|k: int| 0 <= k < a ==> crate::bytes::spec_is_whitespace(#[trigger] s[k]))
            && (forall|k: int| a + trim_ws(s).len() <= k < s.len() ==> crate::bytes::spec_is_whitespace(#[trigger] s[k])),
        trim_ws(trim_ws(s)) == trim_ws(s),
{
    let a = skip_ws_forward(s, 0);
    lemma_skip_ws_forward_bounds(s, 0);
    let b = skip_ws_backward(s, a, s.len() as int);
    lemma_skip_ws_backward_bounds(s, a, s.len() as int);
    let t = trim_ws(s);
    assert(t == s.subrange(a, b));
    if a < b {
        assert(t[0] == s[a]);
        assert(t.last() == s[b - 1]);
    }
    assert(s.subrange(a, a + t.len()) == t);
    let a2 = skip_ws_forward(t, 0);
    lemma_skip_ws_forward_bounds(t, 0);
    if t.len() > 0 {
        assert(a2 == 0);
        lemma_skip_ws_backward_bounds(t, 0, t.len() as int);
        assert(skip_ws_backward(t, 0, t.len() as int) == t.len());
        assert(t.subrange(0, t.len() as int) =~= t);
    } else {
        assert(a2 == 0);
        assert(t.subrange(0, 0) =~= t);
    }
}


proof fn lemma_feed_one(st: StreamState, b: u8)
    ensures
        feed(true, false, st, seq![b]) == feed_byte(true, false, st, b),
{
    assert(seq![b].drop_last() =~= Seq::<u8>::empty());
    assert(feed(true, false, st, Seq::<u8>::empty()) == (st, Seq::<u8>::empty()));
    assert(seq![b].last() == b);
    let (st1, o1) = feed_byte(true, false, st, b);
    assert(Seq::<u8>::empty() + o1 =~= o1);
}

/// Cleaning through `a` from `st`, then `b` from where that ends.
proof fn lemma_feed_then(st: StreamState, a: Seq<u8>, mid: StreamState, b: Seq<u8>, end: StreamState)
    requires
        feed(true, false, st, a) == (mid, Seq::<u8>::empty()),
        feed(true, false, mid, b) == (end, Seq::<u8>::empty()),
    ensures
        feed(true, false, st, a + b) == (end, Seq::<u8>::empty()),
{
    lemma_feed_append(true, false, st, a, b);
    assert(Seq::<u8>::empty() + Seq::<u8>::empty() =~= Seq::<u8>::empty());
}

/// Bytes that leave the cleaner where it is and keep nothing.
proof fn lemma_feed_stays(st: StreamState, q: Seq<u8>)
    requires
        forall|k: int| 0 <= k < q.len() ==> clean_step(st.esc, #[trigger] q[k]) == (st.esc, None::<u8>),
    ensures
        feed(true, false, st, q) == (st, Seq::<u8>::empty()),
    decreases q.len(),
{
    if q.len() > 0 {
        let p = q.drop_last();
        assert forall|k: int| 0 <= k < p.len() implies clean_step(st.esc, #[trigger] p[k]) == (st.esc, None::<u8>) by {
            assert(p[k] == q[k]);
        }
        lemma_feed_stays(st, p);
        assert(clean_step(st.esc, q[q.len() - 1]) == (st.esc, None::<u8>));
        assert(Seq::<u8>::empty() + Seq::<u8>::empty() =~= Seq::<u8>::empty());
    }
}

/// A prefix that cleans to nothing and ends where cleaning starts changes
/// nothing of what follows.
proof fn lemma_strip_prefix(a: Seq<u8>, s: Seq<u8>)
    requires
        feed(true, false, initial_stream(), a) == (initial_stream(), Seq::<u8>::empty()),
    ensures
        strip_controls(a + s) == strip_controls(s),
{
    lemma_feed_append(true, false, initial_stream(), a, s);
    assert(Seq::<u8>::empty() + strip_controls(s) =~= strip_controls(s));
}

spec fn at_esc(e: EscState) -> StreamState {
    StreamState { esc: e, started: false, held: Seq::empty() }
}

/// ESC and the byte after it are never kept, whatever that byte is. Where
/// that byte starts no longer sequence (it is none of `[`, `]`, `P`, `X`,
/// `^`, `_` and no intermediate byte 0x20..=0x2F), the two bytes are removed
/// and cleaning goes on with the rest as if they had not been there.
pub proof fn lemma_escape_pair_removed(c: u8, s: Seq<u8>)
    ensures
        strip_controls(seq![0x1Bu8, c]).len() == 0,
        c != 0x5B && c != 0x5D && c != 0x50 && c != 0x58 && c != 0x5E && c != 0x5F && !(0x20 <= c <= 0x2F)
            ==> strip_controls(seq![0x1Bu8, c] + s) == strip_controls(s),
{
    let st0 = initial_stream();
    assert(at_esc(EscState::Ground) == st0);
    lemma_feed_one(st0, 0x1B);
    let stc = feed_byte(true, false, at_esc(EscState::Escape), c).0;
    lemma_feed_one(at_esc(EscState::Escape), c);
    lemma_feed_then(st0, seq![0x1Bu8], at_esc(EscState::Escape), seq![c], stc);
    assert(seq![0x1Bu8] + seq![c] =~= seq![0x1Bu8, c]);
    if c != 0x5B && c != 0x5D && c != 0x50 && c != 0x58 && c != 0x5E && c != 0x5F && !(0x20 <= c <= 0x2F) {
        assert(stc == st0);
        lemma_strip_prefix(seq![0x1Bu8, c], s);
    }
}

/// A CSI sequence is removed whole: ESC, `[`, any parameter and intermediate
/// bytes (0x20..=0x3F) and the final byte (0x40..=0x7E) go, and cleaning
/// goes on with the rest as if they had not been there.
pub proof fn lemma_csi_removed(q: Seq<u8>, f: u8, s: Seq<u8>)
    requires
        forall|k: int| 0 <= k < q.len() ==> 0x20 <= #[trigger] q[k] <= 0x3F,
        0x40 <= f <= 0x7E,
    ensures
        strip_controls(seq![0x1Bu8, 0x5Bu8] + q + seq![f] + s) == strip_controls(s),
{
    let st0 = initial_stream();
    assert(at_esc(EscState::Ground) == st0);
    let ste = at_esc(EscState::Escape);
    let stc = at_esc(EscState::Csi);
    lemma_feed_one(st0, 0x1B);
    lemma_feed_one(ste, 0x5B);
    lemma_feed_then(st0, seq![0x1Bu8], ste, seq![0x5Bu8], stc);
    assert(seq![0x1Bu8] + seq![0x5Bu8] =~= seq![0x1Bu8, 0x5Bu8]);
    assert forall|k: int| 0 <= k < q.len() implies clean_step(stc.esc, #[trigger] q[k]) == (stc.esc, None::<u8>) by {
        assert(0x20 <= q[k] <= 0x3F);
    }
    lemma_feed_stays(stc, q);
    lemma_feed_then(st0, seq![0x1Bu8, 0x5Bu8], stc, q, stc);
    lemma_feed_one(stc, f);
    lemma_feed_then(st0, seq![0x1Bu8, 0x5Bu8] + q, stc, seq![f], st0);
    lemma_strip_prefix(seq![0x1Bu8, 0x5Bu8] + q + seq![f], s);
}

/// An escape with intermediate bytes is removed whole: ESC, one or more
/// intermediate bytes (0x20..=0x2F) and the byte that ends them go (as in
/// `ESC ( B`), and cleaning goes on with the rest as if they had not been
/// there.
pub proof fn lemma_escape_intermediates_removed(q: Seq<u8>, f: u8, s: Seq<u8>)
    requires
        q.len() > 0,
        forall|k: int| 0 <= k < q.len() ==> 0x20 <= #[trigger] q[k] <= 0x2F,
        !(0x20 <= f <= 0x2F),
    ensures
        strip_controls(seq![0x1Bu8] + q + seq![f] + s) == strip_controls(s),
{
    let st0 = initial_stream();
    assert(at_esc(EscState::Ground) == st0);
    let ste = at_esc(EscState::Escape);
    let sti = at_esc(EscState::Intermediate);
    lemma_feed_one(st0, 0x1B);
    let q0 = seq![q[0]];
    let qr = q.skip(1);
    assert(q0 + qr =~= q);
    lemma_feed_one(ste, q[0]);
    lemma_feed_then(st0, seq![0x1Bu8], ste, q0, sti);
    assert forall|k: int| 0 <= k < qr.len() implies clean_step(sti.esc, #[trigger] qr[k]) == (sti.esc, None::<u8>) by {
        assert(qr[k] == q[k + 1]);
        assert(0x20 <= q[k + 1] <= 0x2F);
    }
    lemma_feed_stays(sti, qr);
    lemma_feed_then(st0, seq![0x1Bu8] + q0, sti, qr, sti);
    assert(seq![0x1Bu8] + q0 + qr =~= seq![0x1Bu8] + q);
    lemma_feed_one(sti, f);
    lemma_feed_then(st0, seq![0x1Bu8] + q, sti, seq![f], st0);
    lemma_strip_prefix(seq![0x1Bu8] + q + seq![f], s);
}

/// Cleaning keeps text as it is: an input made only of tab, printable ASCII
/// (0x20..=0x7E) and bytes from 0x80 up comes out unchanged.
pub proof fn lemma_clean_keeps_text(s: Seq<u8>)
    requires
        forall|k: int| 0 <= k < s.len() ==> (#[trigger] s[k] == 0x09 || 0x20 <= s[k] <= 0x7E || s[k] >= 0x80),
    ensures
        strip_controls(s) == s,
{
    assert forall|k: int| 0 <= k < s.len() implies !crate::bytes::spec_is_control(#[trigger] s[k]) by {
        assert(s[k] == 0x09 || 0x20 <= s[k] <= 0x7E || s[k] >= 0x80);
    }
    lemma_strip_controls_laws(s);
}

/// Cleaning removes every control byte (below 0x20 other than tab, and DEL)
/// that starts no escape: it goes, and cleaning goes on with the rest as if
/// it had not been there.
pub proof fn lemma_control_byte_removed(b: u8, s: Seq<u8>)
    requires
        (b < 0x20 && b != 0x09 && b != 0x1B) || b == 0x7F,
    ensures
        strip_controls(seq![b] + s) == strip_controls(s),
{
    let st0 = initial_stream();
    lemma_feed_one(st0, b);
    lemma_strip_prefix(seq![b], s);
}

/// A string sequence (`ESC ]`, `ESC P`, `ESC X`, `ESC ^` or `ESC _`) ended by
/// BEL is removed whole, whatever its body holds other than BEL and ESC, and
/// cleaning goes on with the rest as if it had not been there.
pub proof fn lemma_string_sequence_removed(c: u8, body: Seq<u8>, s: Seq<u8>)
    requires
        c == 0x5D || c == 0x50 || c == 0x58 || c == 0x5E || c == 0x5F,
        forall|k: int| 0 <= k < body.len() ==> #[trigger] body[k] != 0x07 && body[k] != 0x1B,
    ensures
        strip_controls(seq![0x1Bu8, c] + body + seq![0x07u8] + s) == strip_controls(s),
{
    let st0 = initial_stream();
    assert(at_esc(EscState::Ground) == st0);
    let ste = at_esc(EscState::Escape);
    let sts = at_esc(EscState::Str);
    lemma_feed_one(st0, 0x1B);
    lemma_feed_one(ste, c);
    lemma_feed_then(st0, seq![0x1Bu8], ste, seq![c], sts);
    assert(seq![0x1Bu8] + seq![c] =~= seq![0x1Bu8, c]);
    assert forall|k: int| 0 <= k < body.len() implies clean_step(sts.esc, #[trigger] body[k]) == (sts.esc, None::<u8>) by {
        assert(body[k] != 0x07 && body[k] != 0x1B);
    }
    lemma_feed_stays(sts, body);
    lemma_feed_then(st0, seq![0x1Bu8, c], sts, body, sts);
    lemma_feed_one(sts, 0x07);
    lemma_feed_then(st0, seq![0x1Bu8, c] + body, sts, seq![0x07u8], st0);
    lemma_strip_prefix(seq![0x1Bu8, c] + body + seq![0x07u8], s);
}

/// Trimming stops at any byte other than space, tab, line feed, carriage
/// return, vertical tab and form feed: such a byte at the end of an input is
/// the last byte kept, and at its start the first byte kept.
pub proof fn lemma_trim_keeps_other_bytes(s: Seq<u8>, b: u8)
    requires
        b != 0x20 && b != 0x09 && b != 0x0A && b != 0x0D && b != 0x0B && b != 0x0C,
    ensures
        trim_ws(s.push(b)).len() > 0,
        trim_ws(s.push(b)).last() == b,
        trim_ws(seq![b] + s).len() > 0,
        trim_ws(seq![b] + s)[0] == b,
{
    let x = s.push(b);
    lemma_trim_ws_laws(x);
    let t = trim_ws(x);
    let a = choose|a: int| #![trigger x.subrange(a, a + t.len())]
        0 <= a && a + t.len() <= x.len()
        && x.subrange(a, a + t.len()) == t
        && (forall|k: int| 0 <= k < a ==> crate::bytes::spec_is_whitespace(#[trigger] x[k]))
        && (forall|k: int| a + t.len() <= k < x.len() ==> crate::bytes::spec_is_whitespace(#[trigger] x[k]));
    assert(x[x.len() - 1] == b);
    if a + t.len() < x.len() {
        assert(crate::bytes::spec_is_whitespace(x[x.len() - 1]));
    }
    if t.len() == 0 {
        assert(crate::bytes::spec_is_whitespace(x[x.len() - 1]));
    }
    assert(t.last() == x.subrange(a, a + t.len())[t.len() - 1]);

    let y = seq![b] + s;
    lemma_trim_ws_laws(y);
    let u = trim_ws(y);
    let c = choose|a: int| #![trigger y.subrange(a, a + u.len())]
        0 <= a && a + u.len() <= y.len()
        && y.subrange(a, a + u.len()) == u
        && (forall|k: int| 0 <= k < a ==> crate::bytes::spec_is_whitespace(#[trigger] y[k]))
        && (forall|k: int| a + u.len() <= k < y.len() ==> crate::bytes::spec_is_whitespace(#[trigger] y[k]));
    assert(y[0] == b);
    if c > 0 {
        assert(crate::bytes::spec_is_whitespace(y[0]));
    }
    if u.len() == 0 {
        assert(crate::bytes::spec_is_whitespace(y[0]));
    }
    assert(u[0] == y.subrange(c, c + u.len())[0]);
}

/// Space, tab, line feed, carriage return, vertical tab and form feed at
/// either end of an input are trimmed away: adding one there changes nothing.
pub proof fn lemma_trim_drops_whitespace(s: Seq<u8>, w: u8)
    requires
        w == 0x20 || w == 0x09 || w == 0x0A || w == 0x0D || w == 0x0B || w == 0x0C,
    ensures
        trim_ws(s.push(w)) == trim_ws(s),
        trim_ws(seq![w] + s) == trim_ws(s),
{
    let n = s.len() as int;
    lemma_skip_ws_forward_bounds(s, 0);
    let a = skip_ws_forward(s, 0);
    lemma_skip_ws_backward_bounds(s, a, n);
    let e = skip_ws_backward(s, a, n);
    let x = s.push(w);
    let y = seq![w] + s;
    if a < n {
        assert(e > a) by {
            if e == a {
                assert(crate::bytes::spec_is_whitespace(s[a]));
            }
        }
        // appended at the end
        assert forall|k: int| 0 <= k < a implies crate::bytes::spec_is_whitespace(#[trigger] x[k]) by {
            assert(x[k] == s[k]);
        }
        assert(x[a] == s[a]);
        lemma_skip_ws_forward_unique(x, a);
        assert forall|k: int| e <= k < x.len() implies crate::bytes::spec_is_whitespace(#[trigger] x[k]) by {
            if k < n {
                assert(x[k] == s[k]);
            }
        }
        assert(x[e - 1] == s[e - 1]);
        lemma_skip_ws_backward_unique(x, a, e);
        assert(x.subrange(a, e) =~= s.subrange(a, e));
        // put in front
        assert forall|k: int| 0 <= k < a + 1 implies crate::bytes::spec_is_whitespace(#[trigger] y[k]) by {
            if k > 0 {
                assert(y[k] == s[k - 1]);
            }
        }
        assert(y[a + 1] == s[a]);
        lemma_skip_ws_forward_unique(y, a + 1);
        assert forall|k: int| e + 1 <= k < y.len() implies crate::bytes::spec_is_whitespace(#[trigger] y[k]) by {
            assert(y[k] == s[k - 1]);
        }
        assert(y[e] == s[e - 1]);
        lemma_skip_ws_backward_unique(y, a + 1, e + 1);
        assert(y.subrange(a + 1, e + 1) =~= s.subrange(a, e));
    } else {
        assert forall|k: int| 0 <= k < x.len() implies crate::bytes::spec_is_whitespace(#[trigger] x[k]) by {
            if k < n {
                assert(x[k] == s[k]);
            }
        }
        lemma_skip_ws_forward_unique(x, x.len() as int);
        lemma_skip_ws_backward_bounds(x, x.len() as int, x.len() as int);
        assert forall|k: int| 0 <= k < y.len() implies crate::bytes::spec_is_whitespace(#[trigger] y[k]) by {
            if k > 0 {
                assert(y[k] == s[k - 1]);
            }
        }
        lemma_skip_ws_forward_unique(y, y.len() as int);
        lemma_skip_ws_backward_bounds(y, y.len() as int, y.len() as int);
        assert(trim_ws(x) =~= Seq::<u8>::empty());
        assert(trim_ws(y) =~= Seq::<u8>::empty());
        assert(trim_ws(s) =~= Seq::<u8>::empty());
    }
}

/// Processing never makes an input longer, and with both options the result
/// neither starts nor ends with whitespace and holds no control byte.
pub proof fn lemma_processed_laws(s: Seq<u8>, clean: bool, trim: bool)
    ensures
        processed(s, clean, trim).len() <= s.len(),
        trim && processed(s, clean, trim).len() > 0 ==>
            !crate::bytes::spec_is_whitespace(processed(s, clean, trim)[0])
            && !crate::bytes::spec_is_whitespace(processed(s, clean, trim).last()),
        clean ==> forall|k: int| 0 <= k < processed(s, clean, trim).len()
            ==> !crate::bytes::spec_is_control(#[trigger] processed(s, clean, trim)[k]),
{
    lemma_processed_is_clean_then_trim(s, clean, trim);
    lemma_strip_controls_laws(s);
    let c = if clean { strip_controls(s) } else { s };
    lemma_trim_ws_laws(c);
    if trim {
        let a = skip_ws_forward(c, 0);
        lemma_skip_ws_forward_bounds(c, 0);
        lemma_skip_ws_backward_bounds(c, a, c.len() as int);
        let t = trim_ws(c);
        if clean {
            assert forall|k: int| 0 <= k < t.len() implies !crate::bytes::spec_is_control(#[trigger] t[k]) by {
                assert(t[k] == c[a + k]);
            }
        }
    }
}

/// The exec form of one cleaner step.
fn clean_step_exec(st: EscState, b: u8) -> (r: (EscState, Option<u8>))
    ensures
        r == clean_step(st, b),
{
    match st {
        EscState::Ground => if b == ESC {
            (EscState::Escape, None)
        } else if is_control_or_ansi(b) {
            (EscState::Ground, None)
        } else {
            (EscState::Ground, Some(b))
        },
        EscState::Escape => if b == 0x5B {
            (EscState::Csi, None)
        } else if b == 0x5D || b == 0x50 || b == 0x58 || b == 0x5E || b == 0x5F {
            (EscState::Str, None)
        } else if 0x20 <= b && b <= 0x2F {
            (EscState::Intermediate, None)
        } else {
            (EscState::Ground, None)
        },
        EscState::Intermediate => if 0x20 <= b && b <= 0x2F {
            (EscState::Intermediate, None)
        } else {
            (EscState::Ground, None)
        },
        EscState::Csi => if 0x40 <= b && b <= 0x7E {
            (EscState::Ground, None)
        } else {
            (EscState::Csi, None)
        },
        EscState::Str => if b == 0x07 {
            (EscState::Ground, None)
        } else if b == ESC {
            (EscState::StrEscape, None)
        } else {
            (EscState::Str, None)
        },
        EscState::StrEscape => if b == 0x5C || b == 0x07 {
            (EscState::Ground, None)
        } else if b == ESC {
            (EscState::StrEscape, None)
        } else {
            (EscState::Str, None)
        },
    }
}

/// Feeds `chunk` through the processor whose state is `esc`, `started` and
/// `held`, appending what it gives out to `out`.
pub fn feed_chunk(
    clean: bool,
    trim: bool,
    esc: &mut EscState,
    started: &mut bool,
    held: &mut Vec<u8>,
    chunk: &[u8],
    out: &mut Vec<u8>,
)
    ensures ({
        let (st, o) = feed(clean, trim, StreamState { esc: *old(esc), started: *old(started), held: old(held)@ }, chunk@);
        &&& *final(esc) == st.esc
        &&& *final(started) == st.started
        &&& final(held)@ == st.held
        &&& final(out)@ == old(out)@ + o
    }),
{
    let ghost st0 = StreamState { esc: *esc, started: *started, held: held@ };
    let ghost out0 = out@;
    let mut i: usize = 0;
    while i < chunk.len()
        invariant
            i <= chunk@.len(),
            ({
                let (st, o) = feed(clean, trim, st0, chunk@.take(i as int));
                &&& *esc == st.esc
                &&& *started == st.started
                &&& held@ == st.held
                &&& out@ == out0 + o
            }),
        decreases chunk.len() - i,
    {
        let b = chunk[i];
        let ghost before_out = out@;
        assert(chunk@.take(i + 1).drop_last() =~= chunk@.take(i as int));
        assert(chunk@.take(i + 1).last() == b);
        let (next, kept) = if clean { clean_step_exec(*esc, b) } else { (*esc, Some(b)) };
        *esc = next;
        match kept {
            None => {
                assert(out@ =~= before_out + Seq::<u8>::empty());
            },
            Some(c) => {
                if trim {
                    if is_whitespace(c) {
                        if *started {
                            held.push(c);
                        }
                        assert(out@ =~= before_out + Seq::<u8>::empty());
                    } else {
                        let ghost h = held@;
                        out.append(held);
                        out.push(c);
                        *started = true;
                        assert(out@ =~= before_out + h.push(c));
                    }
                } else {
                    out.push(c);
                    assert(out@ =~= before_out + seq![c]);
                }
            },
        }
        i += 1;
        assert(out@ =~= out0 + feed(clean, trim, st0, chunk@.take(i as int)).1);
    }
    assert(chunk@.take(i as int) =~= chunk@);
}

/// Processes `buffer` as a whole input for cleaning and/or trimming, writing
/// the result to the front of `out_buf` and returning how many bytes were
/// written. With neither option set nothing is written and 0 is returned;
/// output that does not fit in `out_buf` is cut off. When cleaning, a string
/// sequence (`ESC ]`, `ESC P`, `ESC X`, `ESC ^` or `ESC _`) that is never
/// ended by BEL or `ESC \` takes everything after it to the end of the input
/// with it.
pub fn process_buffer(buffer: &[u8], out_buf: &mut [u8], clean: bool, trim: bool) -> (n: usize)
    ensures
        final(out_buf)@.len() == old(out_buf)@.len(),
        !clean && !trim ==> n == 0 && final(out_buf)@ == old(out_buf)@,
        clean || trim ==> {
            let p = processed(buffer@, clean, trim);
            &&& n == if p.len() < old(out_buf)@.len() { p.len() as int } else { old(out_buf)@.len() as int }
            &&& final(out_buf)@ == p.take(n as int) + old(out_buf)@.skip(n as int)
        },
{
    if !clean && !trim {
        return 0;
    }
    let mut esc = EscState::Ground;
    let mut started = false;
    let mut held: Vec<u8> = Vec::new();
    let mut out: Vec<u8> = Vec::new();
    feed_chunk(clean, trim, &mut esc, &mut started, &mut held, buffer, &mut out);
    assert(StreamState { esc: EscState::Ground, started: false, held: Seq::<u8>::empty() } == initial_stream());
    assert(out@ =~= processed(buffer@, clean, trim));
    let n = if out.len() < out_buf.len() { out.len() } else { out_buf.len() };
    let ghost start = out_buf@;
    let mut i: usize = 0;
    while i < n
        invariant
            i <= n <= out@.len(),
            n <= start.len(),
            out_buf@.len() == start.len(),
            forall|k: int| 0 <= k < i ==> out_buf@[k] == out@[k],
            forall|k: int| i <= k < start.len() ==> out_buf@[k] == start[k],
        decreases n - i,
    {
        out_buf[i] = out[i];
        i += 1;
    }
    assert(out_buf@ =~= out@.take(n as int) + start.skip(n as int));
    n
}

} // verus!
