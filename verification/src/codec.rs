//! Canonical text persistence of the node map.
//!
//! A node map is persisted as an object whose keys are the labels in sorted
//! order and whose values are two-element integer arrays: `{"A":[3,-4]}`.
//! Decoding accepts any key order and rebuilds the sorted map; a later
//! duplicate key overrides an earlier one, and text that is not of this
//! shape is rejected as malformed.

use vstd::prelude::*;
use crate::bytes::lex_lt;
use crate::labels::dec_digits;
use crate::nodemap::{NodeEntry, NodeMap};
use crate::Failure;
use crate::Pos;

verus! {

/// Largest coordinate magnitude the codec round-trips.
pub const NUM_LIMIT: i64 = 0x7fff_ffff_ffff_ffff;

/// The byte is a decimal digit.
pub open spec fn is_digit(c: u8) -> bool {
    0x30 <= c <= 0x39
}

/// A label the codec can embed: no quote byte.
pub open spec fn label_ok(l: Seq<u8>) -> bool {
    forall|i: int| 0 <= i < l.len() ==> #[trigger] l[i] != 0x22
}

/// The canonical text of a coordinate: minus sign for negative values, then
/// decimal digits.
pub open spec fn enc_int(v: int) -> Seq<u8> {
    if v < 0 {
        seq![0x2du8] + dec_digits((-v) as nat)
    } else {
        dec_digits(v as nat)
    }
}

/// The canonical text of one entry: `"label":[x,y]`.
pub open spec fn enc_entry(e: NodeEntry) -> Seq<u8> {
    seq![0x22u8] + e.label@ + seq![0x22u8, 0x3a, 0x5b] + enc_int(e.pos.x as int) + seq![0x2cu8]
        + enc_int(e.pos.y as int) + seq![0x5du8]
}

/// The canonical text of the entries after the first, each preceded by a
/// comma.
pub open spec fn enc_rest(s: Seq<NodeEntry>, i: int) -> Seq<u8>
    decreases s.len() - i,
{
    if i < 0 || i >= s.len() {
        Seq::empty()
    } else {
        seq![0x2cu8] + enc_entry(s[i]) + enc_rest(s, i + 1)
    }
}

/// The canonical text of a whole node map: the entries, in their stored
/// order, inside braces.
pub open spec fn spec_encode(s: Seq<NodeEntry>) -> Seq<u8> {
    if s.len() == 0 {
        seq![0x7bu8, 0x7d]
    } else {
        seq![0x7bu8] + enc_entry(s[0]) + enc_rest(s, 1) + seq![0x7du8]
    }
}

/// How many leading decimal digits the text has.
pub open spec fn digits_len(t: Seq<u8>) -> nat
    decreases t.len(),
{
    if t.len() > 0 && is_digit(t[0]) {
        (1 + digits_len(t.drop_first())) as nat
    } else {
        0
    }
}

/// The value of a run of decimal digits, most significant first.
pub open spec fn digits_val(d: Seq<u8>) -> nat
    decreases d.len(),
{
    if d.len() == 0 {
        0
    } else {
        (digits_val(d.drop_last()) * 10 + (d.last() - 0x30)) as nat
    }
}

/// Parses a leading integer: optional minus sign, then digits.  Yields the
/// value and how many bytes it spans; absent digits or a value out of range
/// yield nothing.
pub open spec fn parse_num(t: Seq<u8>) -> Option<(int, nat)> {
    if t.len() > 0 && t[0] == 0x2d {
        let u = t.drop_first();
        let dl = digits_len(u);
        if dl == 0 || digits_val(u.take(dl as int)) > NUM_LIMIT {
            None
        } else {
            Some((-(digits_val(u.take(dl as int)) as int), (dl + 1) as nat))
        }
    } else {
        let dl = digits_len(t);
        if dl == 0 || digits_val(t.take(dl as int)) > NUM_LIMIT {
            None
        } else {
            Some((digits_val(t.take(dl as int)) as int, dl))
        }
    }
}

/// The distance to the first quote byte, where the text has one.
pub open spec fn quote_pos(t: Seq<u8>) -> Option<nat>
    decreases t.len(),
{
    if t.len() == 0 {
        None
    } else if t[0] == 0x22 {
        Some(0)
    } else {
        match quote_pos(t.drop_first()) {
            Some(p) => Some((p + 1) as nat),
            None => None,
        }
    }
}

/// Parses one leading `"label":[x,y]` entry: its label, its position, and
/// how many bytes it spans.
pub open spec fn parse_entry(t: Seq<u8>) -> Option<((Seq<u8>, Pos), nat)> {
    if t.len() == 0 || t[0] != 0x22 {
        None
    } else {
        match quote_pos(t.drop_first()) {
            None => None,
            Some(q) => {
                let qi = q as int;
                let label = t.subrange(1, 1 + qi);
                if t.len() < q + 4 || t[qi + 2] != 0x3a || t[qi + 3] != 0x5b {
                    None
                } else {
                    match parse_num(t.subrange(qi + 4, t.len() as int)) {
                        None => None,
                        Some((x, cx)) => {
                            let i_comma: int = qi + 4 + cx;
                            if t.len() <= i_comma || t[i_comma] != 0x2c {
                                None
                            } else {
                                match parse_num(
                                    t.subrange(i_comma + 1, t.len() as int),
                                ) {
                                    None => None,
                                    Some((y, cy)) => {
                                        let i_close: int = i_comma + 1 + cy;
                                        if t.len() <= i_close || t[i_close] != 0x5d {
                                            None
                                        } else {
                                            Some(
                                                (
                                                    (
                                                        label,
                                                        Pos { x: x as i64, y: y as i64 },
                                                    ),
                                                    (i_close + 1) as nat,
                                                ),
                                            )
                                        }
                                    },
                                }
                            }
                        },
                    }
                }
            },
        }
    }
}

/// Parses the remainder after an entry: either the closing brace, or a comma
/// followed by another entry and the remainder after it.
pub open spec fn parse_rest(t: Seq<u8>) -> Option<(Seq<(Seq<u8>, Pos)>, nat)>
    decreases t.len(),
{
    if t.len() == 0 {
        None
    } else if t[0] == 0x7d {
        Some((Seq::empty(), 1))
    } else if t[0] == 0x2c {
        match parse_entry(t.drop_first()) {
            None => None,
            Some((e, c)) => {
                if 1 + c > t.len() {
                    None
                } else {
                    match parse_rest(t.subrange(1 + c as int, t.len() as int)) {
                        None => None,
                        Some((rest, cr)) => Some((seq![e] + rest, (1 + c + cr) as nat)),
                    }
                }
            },
        }
    } else {
        None
    }
}

/// Parses a whole object: a brace, entries separated by commas, a brace.
pub open spec fn spec_parse(t: Seq<u8>) -> Option<(Seq<(Seq<u8>, Pos)>, nat)> {
    if t.len() < 2 || t[0] != 0x7b {
        None
    } else if t[1] == 0x7d {
        Some((Seq::empty(), 2))
    } else {
        match parse_entry(t.drop_first()) {
            None => None,
            Some((e, c)) => {
                if 1 + c > t.len() {
                    None
                } else {
                    match parse_rest(t.subrange(1 + c as int, t.len() as int)) {
                        None => None,
                        Some((rest, cr)) => Some((seq![e] + rest, (1 + c + cr) as nat)),
                    }
                }
            },
        }
    }
}

/// The entries of well-formed persisted text, in textual order; `None` for
/// text that is not one whole object of the expected shape.
pub open spec fn spec_decode(t: Seq<u8>) -> Option<Seq<(Seq<u8>, Pos)>> {
    match spec_parse(t) {
        None => None,
        Some((es, c)) => if c == t.len() {
            Some(es)
        } else {
            None
        },
    }
}

/// The position the parsed entries leave under key `k`: the last entry of
/// that label wins, as a later duplicate key overrides an earlier one.
pub open spec fn fold_get(es: Seq<(Seq<u8>, Pos)>, k: Seq<u8>) -> Option<Pos>
    decreases es.len(),
{
    if es.len() == 0 {
        None
    } else if es.last().0 == k {
        Some(es.last().1)
    } else {
        fold_get(es.drop_last(), k)
    }
}

/// The labels and positions of stored entries.
pub open spec fn entry_views(s: Seq<NodeEntry>) -> Seq<(Seq<u8>, Pos)> {
    s.map_values(|e: NodeEntry| (e.label@, e.pos))
}

/// Appends the decimal text of `v`.
fn push_int(out: &mut Vec<u8>, v: i64)
    requires
        v > i64::MIN,
    ensures
        final(out)@ == old(out)@ + enc_int(v as int),
{
    if v < 0 {
        out.push(0x2d);
        crate::labels::dec_label_append(-v as u64, out);
        proof {
            assert(out@ =~= old(out)@ + enc_int(v as int));
        }
    } else {
        crate::labels::dec_label_append(v as u64, out);
    }
}

/// Appends the canonical text of one entry.
fn push_entry(out: &mut Vec<u8>, e: &NodeEntry)
    requires
        e.pos.x > i64::MIN,
        e.pos.y > i64::MIN,
    ensures
        final(out)@ == old(out)@ + enc_entry(*e),
{
    out.push(0x22);
    let mut i: usize = 0;
    while i < e.label.len()
        invariant
            0 <= i <= e.label@.len(),
            out@ == old(out)@ + seq![0x22u8] + e.label@.subrange(0, i as int),
        decreases e.label@.len() - i,
    {
        out.push(e.label[i]);
        proof {
            assert(out@ =~= old(out)@ + seq![0x22u8] + e.label@.subrange(0, i + 1));
        }
        i = i + 1;
    }
    proof {
        assert(e.label@.subrange(0, e.label@.len() as int) =~= e.label@);
    }
    out.push(0x22);
    out.push(0x3a);
    out.push(0x5b);
    push_int(out, e.pos.x);
    out.push(0x2c);
    push_int(out, e.pos.y);
    out.push(0x5d);
    proof {
        assert(out@ =~= old(out)@ + enc_entry(*e));
    }
}

/// Serializes the node map to its canonical text.
pub fn encode(m: &NodeMap) -> (r: Vec<u8>)
    requires
        forall|i: int| 0 <= i < m.entries@.len() ==> (#[trigger] m.entries@[i]).pos.x
            > i64::MIN,
        forall|i: int| 0 <= i < m.entries@.len() ==> (#[trigger] m.entries@[i]).pos.y
            > i64::MIN,
    ensures
        r@ == spec_encode(m.entries@),
{
    let mut out: Vec<u8> = Vec::new();
    out.push(0x7b);
    let n = m.entries.len();
    if n == 0 {
        out.push(0x7d);
        proof {
            assert(out@ =~= spec_encode(m.entries@));
        }
        return out;
    }
    push_entry(&mut out, &m.entries[0]);
    let mut i: usize = 1;
    while i < n
        invariant
            1 <= i <= n,
            n == m.entries@.len(),
            forall|k: int| 0 <= k < m.entries@.len() ==> (#[trigger] m.entries@[k]).pos.x
                > i64::MIN,
            forall|k: int| 0 <= k < m.entries@.len() ==> (#[trigger] m.entries@[k]).pos.y
                > i64::MIN,
            out@ + enc_rest(m.entries@, i as int) + seq![0x7du8] == spec_encode(m.entries@),
        decreases n - i,
    {
        out.push(0x2c);
        push_entry(&mut out, &m.entries[i]);
        proof {
            assert(out@ + enc_rest(m.entries@, i + 1) + seq![0x7du8] =~= spec_encode(
                m.entries@,
            ));
        }
        i = i + 1;
    }
    out.push(0x7d);
    proof {
        assert(enc_rest(m.entries@, n as int) =~= Seq::<u8>::empty());
        assert(out@ =~= spec_encode(m.entries@));
    }
    out
}

/// The run of leading digits is exactly `m` long.
proof fn lemma_digits_len_exact(t: Seq<u8>, m: int)
    requires
        0 <= m <= t.len(),
        forall|k: int| 0 <= k < m ==> is_digit(#[trigger] t[k]),
        m == t.len() || !is_digit(t[m]),
    ensures
        digits_len(t) == m,
    decreases m,
{
    if m > 0 {
        lemma_digits_len_exact(t.drop_first(), m - 1);
    }
}

/// The leading digit run is made of digits.
proof fn lemma_digits_len_digits(t: Seq<u8>)
    ensures
        digits_len(t) <= t.len(),
        forall|k: int| 0 <= k < digits_len(t) ==> is_digit(#[trigger] t[k]),
    decreases t.len(),
{
    if t.len() > 0 && is_digit(t[0]) {
        lemma_digits_len_digits(t.drop_first());
        assert forall|k: int| 0 <= k < digits_len(t) implies is_digit(#[trigger] t[k]) by {
            if k >= 1 {
                assert(t[k] == t.drop_first()[k - 1]);
            }
        }
    }
}

/// A text whose first `m` bytes are digits has a digit run at least that
/// long.
proof fn lemma_digits_len_min(t: Seq<u8>, m: int)
    requires
        0 <= m <= t.len(),
        forall|k: int| 0 <= k < m ==> is_digit(#[trigger] t[k]),
    ensures
        digits_len(t) >= m,
    decreases m,
{
    if m > 0 {
        lemma_digits_len_min(t.drop_first(), m - 1);
    }
}

/// A digit run's value only grows as more digits are taken.
proof fn lemma_digits_val_monotone(u: Seq<u8>, m: int)
    requires
        0 <= m <= u.len(),
        forall|k: int| 0 <= k < u.len() ==> is_digit(#[trigger] u[k]),
    ensures
        digits_val(u.take(m)) <= digits_val(u),
    decreases u.len(),
{
    if m == u.len() {
        assert(u.take(m) =~= u);
    } else if u.len() > 0 {
        assert(u.drop_last().take(m) =~= u.take(m));
        lemma_digits_val_monotone(u.drop_last(), m);
        assert(is_digit(u.last()));
    }
}

/// Reads the leading digit run at `i`: its value when it fits the numeric
/// limit, nothing when it is absent or too large.
fn scan_digits(s: &Vec<u8>, i: usize) -> (r: Option<(u64, usize)>)
    requires
        i <= s@.len(),
    ensures
        ({
            let t = s@.subrange(i as int, s@.len() as int);
            let dl = digits_len(t);
            match r {
                Some(p) => dl > 0 && digits_val(t.take(dl as int)) <= NUM_LIMIT && p.0
                    == digits_val(t.take(dl as int)) && p.1 == i + dl,
                None => dl == 0 || digits_val(t.take(dl as int)) > NUM_LIMIT,
            }
        }),
{
    let ghost t = s@.subrange(i as int, s@.len() as int);
    let n = s.len();
    let mut j: usize = i;
    let mut acc: u64 = 0;
    while j < n && 0x30 <= s[j] && s[j] <= 0x39
        invariant
            i <= j <= n,
            n == s@.len(),
            t == s@.subrange(i as int, s@.len() as int),
            forall|k: int| i <= k < j ==> is_digit(#[trigger] s@[k]),
            acc == digits_val(t.take(j - i)),
            acc <= NUM_LIMIT,
        decreases n - j,
    {
        let d: u64 = (s[j] - 0x30) as u64;
        proof {
            assert(t.take(j - i + 1).drop_last() =~= t.take(j - i));
            assert(t.take(j - i + 1).last() == s@[j as int]);
        }
        if acc > (0x7fff_ffff_ffff_ffff - d) / 10 {
            proof {
                let dl = digits_len(t) as int;
                lemma_digits_len_digits(t);
                assert(is_digit(t[j - i]));
                lemma_digits_len_min(t, j - i + 1);
                assert(t.take(dl).take(j - i + 1) =~= t.take(j - i + 1));
                lemma_digits_val_monotone(t.take(dl), j - i + 1);
                assert(digits_val(t.take(j - i + 1)) > NUM_LIMIT);
            }
            return None;
        }
        acc = acc * 10 + d;
        j = j + 1;
    }
    proof {
        lemma_digits_len_exact(t, j - i);
    }
    if j == i {
        return None;
    }
    Some((acc, j))
}

/// Parses the integer at `i`: optional minus sign, then digits.
fn parse_num_at(s: &Vec<u8>, i: usize) -> (r: Option<(i64, usize)>)
    requires
        i <= s@.len(),
    ensures
        ({
            let t = s@.subrange(i as int, s@.len() as int);
            match parse_num(t) {
                None => r is None,
                Some(p) => r matches Some(q) && q.0 == p.0 && q.1 == i + p.1,
            }
        }),
{
    let ghost t = s@.subrange(i as int, s@.len() as int);
    if i < s.len() && s[i] == 0x2d {
        proof {
            assert(t.drop_first() =~= s@.subrange(i + 1, s@.len() as int));
        }
        match scan_digits(s, i + 1) {
            None => None,
            Some((v, j)) => Some((-(v as i64), j)),
        }
    } else {
        match scan_digits(s, i) {
            None => None,
            Some((v, j)) => Some((v as i64, j)),
        }
    }
}

/// The first quote byte at or after `m` is exactly at `m + q`.
proof fn lemma_quote_pos_exact(t: Seq<u8>, m: int)
    requires
        0 <= m <= t.len(),
        forall|k: int| 0 <= k < m ==> #[trigger] t[k] != 0x22,
        m == t.len() || t[m] == 0x22,
    ensures
        m == t.len() ==> quote_pos(t) is None,
        m < t.len() ==> quote_pos(t) == Some(m as nat),
    decreases m,
{
    if m > 0 {
        lemma_quote_pos_exact(t.drop_first(), m - 1);
    }
}

/// Parses the `"label":[x,y]` entry at `i`.
fn parse_entry_at(s: &Vec<u8>, i: usize) -> (r: Option<(NodeEntry, usize)>)
    requires
        i <= s@.len(),
    ensures
        ({
            let t = s@.subrange(i as int, s@.len() as int);
            match parse_entry(t) {
                None => r is None,
                Some(p) => r matches Some(q) && q.0.label@ == p.0.0 && q.0.pos == p.0.1 && q.1
                    == i + p.1,
            }
        }),
{
    let ghost t = s@.subrange(i as int, s@.len() as int);
    let n = s.len();
    if i >= n || s[i] != 0x22 {
        return None;
    }
    proof {
        assert(t.drop_first() =~= s@.subrange(i + 1, s@.len() as int));
    }
    let mut j: usize = i + 1;
    while j < n && s[j] != 0x22
        invariant
            i + 1 <= j <= n,
            n == s@.len(),
            forall|k: int| i + 1 <= k < j ==> #[trigger] s@[k] != 0x22,
        decreases n - j,
    {
        j = j + 1;
    }
    proof {
        lemma_quote_pos_exact(t.drop_first(), j - i - 1);
    }
    if j >= n {
        return None;
    }
    let ghost q: int = j - i - 1;
    let mut label: Vec<u8> = Vec::new();
    let mut k: usize = i + 1;
    while k < j
        invariant
            i + 1 <= k <= j,
            j < n,
            n == s@.len(),
            label@ == s@.subrange(i + 1, k as int),
        decreases j - k,
    {
        label.push(s[k]);
        proof {
            assert(label@ =~= s@.subrange(i + 1, k + 1));
        }
        k = k + 1;
    }
    proof {
        assert(label@ =~= t.subrange(1, 1 + q));
    }
    if n - j <= 2 || s[j + 1] != 0x3a || s[j + 2] != 0x5b {
        proof {
            assert(t.len() < q + 4 || t[q + 2] != 0x3a || t[q + 3] != 0x5b);
        }
        return None;
    }
    proof {
        assert(t[q + 2] == 0x3a && t[q + 3] == 0x5b && t.len() >= q + 4);
        assert(t.subrange(q + 4, t.len() as int) =~= s@.subrange(j + 3, s@.len() as int));
    }
    let x = match parse_num_at(s, j + 3) {
        None => {
            return None;
        },
        Some(p) => p,
    };
    let i_comma = x.1;
    proof {
        assert(i_comma - i == q + 4 + parse_num(t.subrange(q + 4, t.len() as int)).unwrap().1);
    }
    if i_comma >= n || s[i_comma] != 0x2c {
        return None;
    }
    proof {
        assert(t.subrange(i_comma - i + 1, t.len() as int) =~= s@.subrange(
            i_comma + 1,
            s@.len() as int,
        ));
    }
    let y = match parse_num_at(s, i_comma + 1) {
        None => {
            return None;
        },
        Some(p) => p,
    };
    let i_close = y.1;
    if i_close >= n || s[i_close] != 0x5d {
        return None;
    }
    let e = NodeEntry { label: label, pos: crate::Pos { x: x.0, y: y.0 } };
    Some((e, i_close + 1))
}

/// The parsed entries are strictly sorted by label.
pub open spec fn views_sorted(es: Seq<(Seq<u8>, Pos)>) -> bool {
    forall|i: int, j: int|
        0 <= i < j < es.len() ==> lex_lt((#[trigger] es[i]).0, (#[trigger] es[j]).0)
}

/// Parses entries after the first and appends them in textual order.
#[verifier::rlimit(100)]
fn parse_rest_at(s: &Vec<u8>, i: usize, out: &mut Vec<NodeEntry>) -> (r: Option<usize>)
    requires
        i <= s@.len(),
    ensures
        ({
            let t = s@.subrange(i as int, s@.len() as int);
            match parse_rest(t) {
                None => r is None,
                Some(p) => (r matches Some(end) && end == i + p.1 && entry_views(final(out)@)
                    == entry_views(old(out)@) + p.0),
            }
        }),
    decreases s@.len() - i,
{
    let ghost t = s@.subrange(i as int, s@.len() as int);
    let n = s.len();
    if i >= n {
        return None;
    }
    if s[i] == 0x7d {
        proof {
            assert(entry_views(out@) =~~= entry_views(out@) + Seq::<(Seq<u8>, Pos)>::empty());
        }
        return Some(i + 1);
    }
    if s[i] != 0x2c {
        return None;
    }
    proof {
        assert(t.drop_first() =~= s@.subrange(i + 1, s@.len() as int));
    }
    match parse_entry_at(s, i + 1) {
        None => None,
        Some(ej) => {
            let j = ej.1;
            let ghost c: int = j - i - 1;
            let ghost pre_out = out@;
            let ghost ev = (ej.0.label@, ej.0.pos);
            out.push(ej.0);
            proof {
                assert(entry_views(out@) =~~= entry_views(pre_out) + seq![ev]);
                assert(1 + c <= t.len());
                assert(t.subrange(1 + c, t.len() as int) =~= s@.subrange(
                    j as int,
                    s@.len() as int,
                ));
            }
            let ghost mid_out = out@;
            match parse_rest_at(s, j, out) {
                None => None,
                Some(end) => {
                    proof {
                        let rest = parse_rest(t.subrange(1 + c, t.len() as int)).unwrap().0;
                        assert(entry_views(out@) =~~= entry_views(pre_out) + (seq![ev] + rest));
                    }
                    Some(end)
                },
            }
        },
    }
}

/// Decodes canonical text into a node map: any key order is accepted, a
/// later duplicate key overrides an earlier one, and anything else than one
/// whole object of the expected shape yields nothing.
pub fn decode(s: &Vec<u8>) -> (r: Option<NodeMap>)
    ensures
        r is Some <==> spec_decode(s@) is Some,
        r matches Some(nm) ==> nm.wf(),
        r matches Some(nm) ==> forall|k: Seq<u8>|
            nm.spec_get(k) == fold_get(spec_decode(s@).unwrap(), k),
        spec_decode(s@) matches Some(es) ==> views_sorted(es) ==> (r matches Some(nm)
            && entry_views(nm.entries@) == es),
{
    let n = s.len();
    if n < 2 || s[0] != 0x7b {
        return None;
    }
    let mut items: Vec<NodeEntry> = Vec::new();
    let consumed: usize;
    if s[1] == 0x7d {
        consumed = 2;
        proof {
            assert(spec_parse(s@) == Some((Seq::<(Seq<u8>, Pos)>::empty(), 2nat)));
            assert(entry_views(items@) =~~= Seq::<(Seq<u8>, Pos)>::empty());
        }
    } else {
        proof {
            assert(s@.drop_first() =~= s@.subrange(1, s@.len() as int));
        }
        match parse_entry_at(s, 1) {
            None => {
                return None;
            },
            Some(ej) => {
                let j = ej.1;
                let ghost c: int = j - 1;
                let ghost ev = parse_entry(s@.subrange(1, s@.len() as int)).unwrap().0;
                items.push(ej.0);
                proof {
                    assert(ev.0 == ej.0.label@ && ev.1 == ej.0.pos);
                    assert(entry_views(items@) =~~= seq![ev]);
                    assert(1 + c <= s@.len());
                    assert(s@.subrange(1 + c, s@.len() as int) =~= s@.subrange(
                        j as int,
                        s@.len() as int,
                    ));
                }
                match parse_rest_at(s, j, &mut items) {
                    None => {
                        return None;
                    },
                    Some(end) => {
                        proof {
                            let tail = s@.subrange(1 + c, s@.len() as int);
                            let rest = parse_rest(tail).unwrap().0;
                            assert(entry_views(items@) =~~= seq![ev] + rest);
                            assert(spec_parse(s@) matches Some(p) && p.0 == seq![ev] + rest
                                && p.1 == 1 + c + parse_rest(tail).unwrap().1);
                            assert(end == 1 + c + parse_rest(tail).unwrap().1);
                        }
                        consumed = end;
                    },
                }
            },
        }
    }
    if consumed != n {
        return None;
    }
    let ghost es = spec_decode(s@).unwrap();
    proof {
        assert(spec_parse(s@) matches Some(p) && p.1 == consumed && p.0 == entry_views(
            items@,
        ));
        assert(spec_decode(s@) == Some(entry_views(items@)));
        assert(entry_views(items@) == es);
    }
    let mut nm = NodeMap::new();
    while items.len() > 0
        invariant
            nm.wf(),
            es == spec_decode(s@).unwrap(),
            entry_views(items@) == es.subrange(
                es.len() - items@.len(),
                es.len() as int,
            ),
            items@.len() <= es.len(),
            forall|k: Seq<u8>| nm.spec_get(k) == fold_get(
                es.take(es.len() - items@.len()),
                k,
            ),
            views_sorted(es) ==> entry_views(nm.entries@) == es.take(
                es.len() - items@.len(),
            ),
        decreases items@.len(),
    {
        let ghost d: int = es.len() - items@.len();
        let ghost pre_items = items@;
        let ghost pre_nm = nm;
        let e = items.remove(0);
        proof {
            assert(entry_views(pre_items)[0] == es[d]);
            assert((e.label@, e.pos) == es[d]);
            assert(items@ =~= pre_items.drop_first());
            assert(forall|k: int|
                0 <= k < items@.len() ==> entry_views(items@)[k] == entry_views(pre_items)[k
                    + 1]);
            assert(entry_views(items@) =~~= es.subrange(d + 1, es.len() as int));
            if views_sorted(es) {
                assert forall|i: int| 0 <= i < pre_nm.entries@.len() implies lex_lt(
                    (#[trigger] pre_nm.entries@[i]).label@,
                    e.label@,
                ) by {
                    assert(entry_views(pre_nm.entries@)[i] == es.take(d)[i]);
                    assert(pre_nm.entries@[i].label@ == es[i].0);
                }
            }
        }
        let ghost lbl = e.label@;
        let ghost ps = e.pos;
        nm.insert(e.label, e.pos);
        proof {
            assert(es.take(d + 1).drop_last() =~= es.take(d));
            assert(es.take(d + 1).last() == es[d]);
            assert forall|k: Seq<u8>| nm.spec_get(k) == fold_get(es.take(d + 1), k) by {
                if k == lbl {
                    assert(fold_get(es.take(d + 1), k) == Some(ps));
                } else {
                    assert(fold_get(es.take(d + 1), k) == fold_get(es.take(d), k));
                }
            }
            if views_sorted(es) {
                assert(entry_views(nm.entries@) =~~= es.take(d + 1));
            }
        }
    }
    proof {
        assert(es.take(es.len() as int) =~= es);
        assert(es.subrange(0, es.len() as int) =~= es);
    }
    Some(nm)
}

/// Printing a number and reading its digits gives the number back.
proof fn lemma_dec_digits_val(n: nat)
    ensures
        digits_val(dec_digits(n)) == n,
    decreases n,
{
    let d = dec_digits(n);
    if n >= 10 {
        lemma_dec_digits_val(n / 10);
        assert(d.drop_last() =~= dec_digits(n / 10));
        assert(d.last() == (0x30 + n % 10) as u8);
        assert(d.len() > 0);
        assert(digits_val(d) == (digits_val(d.drop_last()) * 10 + (d.last() - 0x30)) as nat);
        assert(digits_val(d.drop_last()) == n / 10);
        assert(digits_val(d) == ((n / 10) * 10 + (n % 10)) as nat);
    } else {
        assert(d =~= seq![(0x30 + n) as u8]);
        assert(d.drop_last() =~= Seq::<u8>::empty());
        assert(d.last() == (0x30 + n) as u8);
        assert(d.len() == 1);
        assert(digits_val(d.drop_last()) == 0);
        assert(digits_val(d) == (digits_val(d.drop_last()) * 10 + (d.last() - 0x30)) as nat);
    }
}

/// A printed number followed by a non-digit parses as exactly that number.
proof fn lemma_parse_dec(n: nat, rest: Seq<u8>)
    requires
        rest.len() == 0 || !is_digit(rest[0]),
    ensures
        digits_len(dec_digits(n) + rest) == dec_digits(n).len(),
        digits_val((dec_digits(n) + rest).take(dec_digits(n).len() as int)) == n,
{
    crate::labels::lemma_dec_digits_shape(n);
    let d = dec_digits(n);
    let t = d + rest;
    lemma_digits_len_exact(t, d.len() as int);
    assert(t.take(d.len() as int) =~= d);
    lemma_dec_digits_val(n);
}

/// A printed integer followed by a non-digit parses as that integer and
/// spans exactly its own text.
proof fn lemma_parse_enc_int(v: int, rest: Seq<u8>)
    requires
        -NUM_LIMIT <= v <= NUM_LIMIT,
        rest.len() == 0 || !is_digit(rest[0]),
    ensures
        parse_num(enc_int(v) + rest) == Some((v, enc_int(v).len() as nat)),
{
    let t = enc_int(v) + rest;
    if v < 0 {
        let d = dec_digits((-v) as nat);
        assert(t[0] == 0x2d);
        assert(t.drop_first() =~= d + rest);
        lemma_parse_dec((-v) as nat, rest);
    } else {
        crate::labels::lemma_dec_digits_shape(v as nat);
        assert(t[0] == dec_digits(v as nat)[0]);
        assert(t[0] != 0x2d);
        lemma_parse_dec(v as nat, rest);
        assert(t =~= dec_digits(v as nat) + rest);
    }
}

/// Every entry the codec handles: a label without quotes, both coordinates
/// within the numeric limit.
pub open spec fn entry_ok(e: NodeEntry) -> bool {
    label_ok(e.label@) && -NUM_LIMIT <= e.pos.x && -NUM_LIMIT <= e.pos.y
}

/// A printed entry parses back as its own label and position, spanning
/// exactly its own text.
#[verifier::rlimit(100)]
proof fn lemma_parse_enc_entry(e: NodeEntry, rest: Seq<u8>)
    requires
        entry_ok(e),
    ensures
        parse_entry(enc_entry(e) + rest) matches Some(p) && p.0.0 == e.label@ && p.0.1 == e.pos
            && p.1 == enc_entry(e).len(),
{
    let t = enc_entry(e) + rest;
    let l = e.label@;
    let q = l.len() as int;
    let ex = enc_int(e.pos.x as int);
    let ey = enc_int(e.pos.y as int);
    assert(t[0] == 0x22);
    assert(t.drop_first() =~= l + (seq![0x22u8, 0x3a, 0x5b] + ex + seq![0x2cu8] + ey + seq![
        0x5du8,
    ] + rest));
    lemma_quote_pos_exact(t.drop_first(), q);
    assert(quote_pos(t.drop_first()) == Some(q as nat));
    assert(t.subrange(1, 1 + q) =~= l);
    assert(t[q + 2] == 0x3a);
    assert(t[q + 3] == 0x5b);
    let restx = seq![0x2cu8] + ey + seq![0x5du8] + rest;
    assert(t.subrange(q + 4, t.len() as int) =~= ex + restx);
    lemma_parse_enc_int(e.pos.x as int, restx);
    let cx = ex.len() as int;
    let i_comma = q + 4 + cx;
    assert(t[i_comma] == 0x2c);
    let resty = seq![0x5du8] + rest;
    assert(t.subrange(i_comma + 1, t.len() as int) =~= ey + resty);
    lemma_parse_enc_int(e.pos.y as int, resty);
    let cy = ey.len() as int;
    let i_close = i_comma + 1 + cy;
    assert(t[i_close] == 0x5d);
    assert(i_close + 1 == enc_entry(e).len());
}

/// The text after a first entry parses back as exactly the remaining
/// entries, up to and including the closing brace.
#[verifier::rlimit(100)]
proof fn lemma_parse_enc_rest(s: Seq<NodeEntry>, i: int)
    requires
        0 <= i <= s.len(),
        forall|k: int| 0 <= k < s.len() ==> entry_ok(#[trigger] s[k]),
    ensures
        parse_rest(enc_rest(s, i) + seq![0x7du8]) matches Some(p) && p.0 == entry_views(
            s,
        ).subrange(i, s.len() as int) && p.1 == enc_rest(s, i).len() + 1,
    decreases s.len() - i,
{
    let t = enc_rest(s, i) + seq![0x7du8];
    if i >= s.len() {
        assert(t =~= seq![0x7du8]);
        assert(entry_views(s).subrange(i, s.len() as int) =~~= Seq::<(Seq<u8>, Pos)>::empty());
    } else {
        assert(t[0] == 0x2c);
        let tail = enc_rest(s, i + 1) + seq![0x7du8];
        assert(t.drop_first() =~= enc_entry(s[i]) + tail);
        lemma_parse_enc_entry(s[i], tail);
        let c = enc_entry(s[i]).len() as int;
        assert(1 + c <= t.len());
        assert(t.subrange(1 + c, t.len() as int) =~= tail);
        lemma_parse_enc_rest(s, i + 1);
        let e = parse_entry(t.drop_first()).unwrap().0;
        let rest = parse_rest(tail).unwrap().0;
        assert(seq![e] + rest =~~= entry_views(s).subrange(i, s.len() as int));
    }
}

/// Round trip: the canonical text of a well-formed node map decodes back to
/// exactly its own entries, and those entries are strictly sorted, so the
/// rebuilt map is the original.
#[verifier::rlimit(100)]
pub proof fn lemma_encode_decode(m: NodeMap)
    requires
        m.wf(),
        forall|k: int| 0 <= k < m.entries@.len() ==> entry_ok(#[trigger] m.entries@[k]),
    ensures
        spec_decode(spec_encode(m.entries@)) == Some(entry_views(m.entries@)),
        views_sorted(entry_views(m.entries@)),
{
    let s = m.entries@;
    let t = spec_encode(s);
    assert forall|i: int, j: int| 0 <= i < j < entry_views(s).len() implies lex_lt(
        (#[trigger] entry_views(s)[i]).0,
        (#[trigger] entry_views(s)[j]).0,
    ) by {
        assert(entry_views(s)[i].0 == s[i].label@);
        assert(entry_views(s)[j].0 == s[j].label@);
    }
    if s.len() == 0 {
        assert(t =~= seq![0x7bu8, 0x7d]);
        assert(spec_parse(t) == Some((Seq::<(Seq<u8>, Pos)>::empty(), 2nat)));
        assert(entry_views(s) =~~= Seq::<(Seq<u8>, Pos)>::empty());
    } else {
        let tail = enc_rest(s, 1) + seq![0x7du8];
        assert(t[0] == 0x7b);
        crate::labels::lemma_dec_digits_shape(
            if s[0].pos.x >= 0 {
                s[0].pos.x as nat
            } else {
                (-s[0].pos.x) as nat
            },
        );
        assert(t[1] == 0x22);
        assert(t.drop_first() =~= enc_entry(s[0]) + tail);
        lemma_parse_enc_entry(s[0], tail);
        let c = enc_entry(s[0]).len() as int;
        assert(1 + c <= t.len());
        assert(t.subrange(1 + c, t.len() as int) =~= tail);
        lemma_parse_enc_rest(s, 1);
        let e = parse_entry(t.drop_first()).unwrap().0;
        let rest = parse_rest(tail).unwrap().0;
        assert(seq![e] + rest =~~= entry_views(s));
        assert(spec_parse(t) matches Some(p) && p.0 == entry_views(s) && p.1 == t.len());
    }
}

/// Decodes persisted text, as [`decode`] does, reporting text that is not
/// of the expected shape as malformed input.
pub fn decode_node_map(s: &Vec<u8>) -> (r: Result<NodeMap, Failure>)
    ensures
        r is Ok <==> spec_decode(s@) is Some,
        r matches Err(f) ==> f == Failure::MalformedInput,
        r matches Ok(nm) ==> nm.wf() && forall|k: Seq<u8>|
            nm.spec_get(k) == fold_get(spec_decode(s@).unwrap(), k),
{
    match decode(s) {
        None => Err(Failure::MalformedInput),
        Some(nm) => Ok(nm),
    }
}

} // verus!
