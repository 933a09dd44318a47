//! The mathematical model of masking: which bytes are replaced by the
//! sentinel, how the side table is built from the input, and how replaying
//! the table restores the original bytes.

use vstd::prelude::*;
use vstd::utf8::*;

verus! {

/// The sentinel byte written at every masked position: the ASCII
/// "Substitute" control code.
pub const SUBSTITUTE: u8 = 26;

/// The largest byte value that is left unmasked.
pub const ASCII_MAX: u8 = 127;

/// The model of the side table: one entry per distinct masked byte value,
/// holding that value and the positions at which it occurred.
pub type MaskTable = Seq<(u8, Seq<int>)>;

/// The text form produced at construction: every byte above `ASCII_MAX`
/// becomes `SUBSTITUTE`, every other byte is kept.
pub open spec fn mask(d: Seq<u8>) -> Seq<u8> {
    Seq::new(d.len(), |i: int| if d[i] > ASCII_MAX { SUBSTITUTE } else { d[i] })
}

/// True when some entry of the table records position `i`.
pub open spec fn covers(t: MaskTable, i: int) -> bool {
    exists|j: int| 0 <= j < t.len() && t[j].1.contains(i)
}

/// The index of the entry that records position `i`.
pub open spec fn cover_entry(t: MaskTable, i: int) -> int {
    choose|j: int| 0 <= j < t.len() && t[j].1.contains(i)
}

/// The original byte value recorded for position `i`.
pub open spec fn masked_value(t: MaskTable, i: int) -> u8 {
    t[cover_entry(t, i)].0
}

/// Replaying the table over a buffer: every recorded position is restored to
/// its recorded value, every other position is kept.
pub open spec fn unmask(s: Seq<u8>, t: MaskTable) -> Seq<u8> {
    Seq::new(s.len(), |i: int| if covers(t, i) { masked_value(t, i) } else { s[i] })
}

/// Re-masking a buffer: every recorded position is overwritten with the
/// sentinel, every other position is kept.
pub open spec fn remask(s: Seq<u8>, t: MaskTable) -> Seq<u8> {
    Seq::new(s.len(), |i: int| if covers(t, i) { SUBSTITUTE } else { s[i] })
}

/// Well-formedness of a table: entry values are distinct and above the 7-bit
/// range, position lists ascend strictly, hold no negative position, and no
/// position is recorded twice.
pub open spec fn table_wf(t: MaskTable) -> bool {
    &&& forall|j: int, k: int| 0 <= j < t.len() && 0 <= k < t.len() && j != k ==> t[j].0 != t[k].0
    &&& forall|j: int| 0 <= j < t.len() ==> (#[trigger] t[j]).0 > ASCII_MAX
    &&& forall|j: int, n: int, m: int|
        0 <= j < t.len() && 0 <= n < m < t[j].1.len() ==> t[j].1[n] < t[j].1[m]
    &&& forall|j: int, n: int| 0 <= j < t.len() && 0 <= n < t[j].1.len() ==> t[j].1[n] >= 0
    &&& forall|j: int, k: int, i: int|
        0 <= j < t.len() && 0 <= k < t.len() && j != k && t[j].1.contains(i)
            ==> !t[k].1.contains(i)
}

/// The table `t` is exactly the side table of the byte sequence `d`: it is
/// well formed, records only positions of `d` holding the entry's value, and
/// records every position of `d` whose byte is above the 7-bit range.
pub open spec fn table_models(t: MaskTable, d: Seq<u8>) -> bool {
    &&& table_wf(t)
    &&& forall|j: int, n: int|
        0 <= j < t.len() && 0 <= n < t[j].1.len()
            ==> 0 <= t[j].1[n] < d.len() && d[t[j].1[n]] == t[j].0
    &&& forall|i: int| 0 <= i < d.len() && d[i] > ASCII_MAX ==> covers(t, i)
}

/// One step of building the table: position `i` held the byte `b`. A byte in
/// the 7-bit range is not recorded; otherwise `i` is appended to the entry
/// for `b`, which is created if absent.
pub open spec fn record_byte(t: MaskTable, b: u8, i: int) -> MaskTable {
    if b <= ASCII_MAX {
        t
    } else if table_has_value(t, b) {
        let j = table_index_of(t, b);
        t.update(j, (b, t[j].1.push(i)))
    } else {
        t.push((b, seq![i]))
    }
}

/// True when the table already has an entry for the byte value `b`.
pub open spec fn table_has_value(t: MaskTable, b: u8) -> bool {
    exists|j: int| 0 <= j < t.len() && t[j].0 == b
}

/// The index of the entry for the byte value `b`.
pub open spec fn table_index_of(t: MaskTable, b: u8) -> int {
    choose|j: int| 0 <= j < t.len() && t[j].0 == b
}

/// The side table of the byte sequence `d`, built left to right: entries
/// appear in order of each value's first occurrence, positions in ascending
/// order.
pub open spec fn table_for(d: Seq<u8>) -> MaskTable
    decreases d.len(),
{
    if d.len() == 0 {
        Seq::empty()
    } else {
        record_byte(table_for(d.drop_last()), d.last(), d.len() - 1)
    }
}

/// A rendering substitutes the replacement character for every occurrence of
/// the sentinel's character; all other characters are kept.
pub open spec fn rendered(text: Seq<char>) -> Seq<char> {
    text.map(|i: int, c: char| if c == '\u{1a}' { '\u{fffd}' } else { c })
}

proof fn lemma_push_contains(l: Seq<int>, v: int, x: int)
    ensures
        l.push(v).contains(x) <==> (l.contains(x) || x == v),
{
    if l.contains(x) {
        let idx = choose|idx: int| 0 <= idx < l.len() && l[idx] == x;
        assert(l.push(v)[idx] == x);
    }
    assert(l.push(v)[l.len() as int] == v);
    if l.push(v).contains(x) {
        let idx = choose|idx: int| 0 <= idx < l.push(v).len() && l.push(v)[idx] == x;
        if idx < l.len() {
            assert(l[idx] == x);
        }
    }
}

/// The table built from `d` is exactly the side table of `d`.
pub proof fn lemma_table_for_models(d: Seq<u8>)
    ensures
        table_models(table_for(d), d),
    decreases d.len(),
{
    if d.len() == 0 {
        assert(table_for(d) =~= MaskTable::empty());
    } else {
        let d0 = d.drop_last();
        let b = d.last();
        let n = d.len() - 1;
        lemma_table_for_models(d0);
        let t0 = table_for(d0);
        let t = table_for(d);
        assert(t == record_byte(t0, b, n));
        assert(forall|i: int| 0 <= i < n ==> d0[i] == #[trigger] d[i]);
        assert(d[n] == b);
        // every position already recorded lies below n
        assert(forall|a: int, m: int|
            0 <= a < t0.len() && 0 <= m < t0[a].1.len() ==> #[trigger] t0[a].1[m] < n);
        if b <= ASCII_MAX {
            assert(t == t0);
            assert forall|i: int| 0 <= i < d.len() && #[trigger] d[i] > ASCII_MAX implies covers(
                t,
                i,
            ) by {
                assert(i != n);
                assert(d0[i] == d[i]);
                assert(covers(t0, i));
            }
        } else if table_has_value(t0, b) {
            let j = table_index_of(t0, b);
            assert(0 <= j < t0.len() && t0[j].0 == b);
            let newlist = t0[j].1.push(n);
            assert(t == t0.update(j, (b, newlist)));
            assert(forall|a: int| 0 <= a < t.len() ==> (#[trigger] t[a]).0 == t0[a].0);
            assert(forall|a: int| 0 <= a < t.len() && a != j ==> #[trigger] t[a] == t0[a]);
            assert(t[j].1 == newlist);
            assert(newlist[t0[j].1.len() as int] == n);
            assert(t[j].1.contains(n));
            // strict ascent of the updated list
            assert forall|n1: int, m1: int| 0 <= n1 < m1 < newlist.len() implies newlist[n1]
                < newlist[m1] by {
                if m1 < t0[j].1.len() {
                    assert(newlist[n1] == t0[j].1[n1] && newlist[m1] == t0[j].1[m1]);
                } else {
                    assert(newlist[m1] == n);
                    assert(newlist[n1] == t0[j].1[n1]);
                    assert(t0[j].1[n1] < n);
                }
            }
            // membership of every recorded position
            assert forall|a: int, m: int| 0 <= a < t.len() && 0 <= m < t[a].1.len() implies 0 <= (
            #[trigger] t[a].1[m]) < d.len() && d[t[a].1[m]] == t[a].0 by {
                if a == j && m == t0[j].1.len() {
                    assert(t[a].1[m] == n);
                } else {
                    assert(t[a].1[m] == t0[a].1[m]);
                    assert(0 <= t0[a].1[m] < d0.len() && d0[t0[a].1[m]] == t0[a].0);
                }
            }
            // no position is recorded twice
            assert forall|a: int, c: int, i: int|
                0 <= a < t.len() && 0 <= c < t.len() && a != c && t[a].1.contains(i) implies !t[c].1.contains(i) by {
                lemma_push_contains(t0[j].1, n, i);
                if i == n {
                    assert(!t0[a].1.contains(n) && !t0[c].1.contains(n)) by {
                        if t0[a].1.contains(n) {
                            let m = choose|m: int|
                                0 <= m < t0[a].1.len() && t0[a].1[m] == n;
                            assert(t0[a].1[m] < n);
                        }
                        if t0[c].1.contains(n) {
                            let m = choose|m: int|
                                0 <= m < t0[c].1.len() && t0[c].1[m] == n;
                            assert(t0[c].1[m] < n);
                        }
                    }
                    assert(a == j);
                } else {
                    assert(t0[a].1.contains(i));
                    assert(!t0[c].1.contains(i));
                }
            }
            // completeness
            assert forall|i: int| 0 <= i < d.len() && #[trigger] d[i] > ASCII_MAX implies covers(
                t,
                i,
            ) by {
                if i == n {
                    assert(t[j].1.contains(n));
                } else {
                    assert(covers(t0, i));
                    let a = choose|a: int| 0 <= a < t0.len() && t0[a].1.contains(i);
                    lemma_push_contains(t0[j].1, n, i);
                    assert(t[a].1.contains(i));
                }
            }
        } else {
            let fresh = (b, seq![n as int]);
            assert(t == t0.push(fresh));
            assert(forall|a: int| 0 <= a < t0.len() ==> #[trigger] t[a] == t0[a]);
            assert(t[t0.len() as int] == fresh);
            assert(forall|a: int| 0 <= a < t0.len() ==> (#[trigger] t0[a]).0 != b);
            assert(fresh.1[0] == n);
            assert(fresh.1.contains(n));
            assert forall|x: int| #[trigger] fresh.1.contains(x) implies x == n by {
                let m = choose|m: int| 0 <= m < fresh.1.len() && fresh.1[m] == x;
                assert(m == 0);
            }
            // no position is recorded twice
            assert forall|a: int, c: int, i: int|
                0 <= a < t.len() && 0 <= c < t.len() && a != c && t[a].1.contains(i) implies !t[c].1.contains(i) by {
                if a < t0.len() && c < t0.len() {
                    assert(!t0[c].1.contains(i));
                } else if a == t0.len() {
                    assert(i == n);
                    if t0[c].1.contains(n) {
                        let m = choose|m: int| 0 <= m < t0[c].1.len() && t0[c].1[m] == n;
                        assert(t0[c].1[m] < n);
                    }
                } else {
                    assert(c == t0.len());
                    if t0[a].1.contains(i) {
                        let m = choose|m: int| 0 <= m < t0[a].1.len() && t0[a].1[m] == i;
                        assert(t0[a].1[m] < n);
                        assert(i != n);
                    }
                }
            }
            // membership
            assert forall|a: int, m: int| 0 <= a < t.len() && 0 <= m < t[a].1.len() implies 0 <= (
            #[trigger] t[a].1[m]) < d.len() && d[t[a].1[m]] == t[a].0 by {
                if a == t0.len() {
                    assert(t[a].1[m] == n);
                } else {
                    assert(0 <= t0[a].1[m] < d0.len() && d0[t0[a].1[m]] == t0[a].0);
                }
            }
            // completeness
            assert forall|i: int| 0 <= i < d.len() && #[trigger] d[i] > ASCII_MAX implies covers(
                t,
                i,
            ) by {
                if i == n {
                    assert(t[t0.len() as int].1.contains(n));
                } else {
                    assert(covers(t0, i));
                    let a = choose|a: int| 0 <= a < t0.len() && t0[a].1.contains(i);
                    assert(t[a].1.contains(i));
                }
            }
        }
    }
}

/// In the table of `d`, a position is recorded exactly when its byte in `d`
/// is above the 7-bit range, and the recorded value is that byte.
pub proof fn lemma_models_covers(t: MaskTable, d: Seq<u8>)
    requires
        table_models(t, d),
    ensures
        forall|i: int| #[trigger] covers(t, i) <==> (0 <= i < d.len() && d[i] > ASCII_MAX),
        forall|i: int| #[trigger] covers(t, i) ==> masked_value(t, i) == d[i],
{
    assert forall|i: int| #[trigger] covers(t, i) implies 0 <= i < d.len() && d[i] > ASCII_MAX
        && masked_value(t, i) == d[i] by {
        let j = cover_entry(t, i);
        assert(0 <= j < t.len() && t[j].1.contains(i));
        let m = choose|m: int| 0 <= m < t[j].1.len() && t[j].1[m] == i;
        assert(0 <= t[j].1[m] < d.len() && d[t[j].1[m]] == t[j].0);
    }
}

/// Round trip: replaying the table of `d` over the masked text of `d`
/// restores `d` exactly. Taking the byte form immediately after construction
/// therefore yields the original byte sequence.
pub proof fn lemma_round_trip(d: Seq<u8>)
    ensures
        unmask(mask(d), table_for(d)) == d,
{
    lemma_table_for_models(d);
    lemma_models_covers(table_for(d), d);
    assert(unmask(mask(d), table_for(d)) =~= d);
}

/// Correctness of the side table of `d`: it is well formed (distinct values,
/// strictly ascending position lists, no position recorded twice); every
/// position holding a byte above the 7-bit range is recorded, under exactly
/// that byte's value; and reconstruction restores that byte at that position.
pub proof fn lemma_mask_table_correct(d: Seq<u8>)
    ensures
        table_wf(table_for(d)),
        forall|i: int|
            0 <= i < d.len() && (#[trigger] d[i]) > ASCII_MAX ==> covers(table_for(d), i)
                && masked_value(table_for(d), i) == d[i],
        forall|j: int, i: int|
            0 <= j < table_for(d).len() && #[trigger] table_for(d)[j].1.contains(i) ==> 0 <= i
                < d.len() && d[i] == table_for(d)[j].0,
        forall|i: int|
            0 <= i < d.len() && (#[trigger] d[i]) > ASCII_MAX ==> unmask(
                mask(d),
                table_for(d),
            )[i] == d[i],
{
    let t = table_for(d);
    lemma_table_for_models(d);
    lemma_models_covers(t, d);
    lemma_round_trip(d);
    assert forall|j: int, i: int|
        0 <= j < t.len() && #[trigger] t[j].1.contains(i) implies 0 <= i < d.len() && d[i] == t[j].0 by {
        let m = choose|m: int| 0 <= m < t[j].1.len() && t[j].1[m] == i;
        assert(0 <= t[j].1[m] < d.len() && d[t[j].1[m]] == t[j].0);
    }
}

/// A buffer of 7-bit bytes is a valid UTF-8 encoding.
pub proof fn lemma_ascii_valid_utf8(s: Seq<u8>)
    requires
        forall|i: int| 0 <= i < s.len() ==> s[i] <= ASCII_MAX,
    ensures
        valid_utf8(s),
{
    assert(s.subrange(0, 0) =~= Seq::<u8>::empty());
    assert(partial_valid_utf8(s, 0));
    assert(forall|i: int| 0 <= i < s.len() ==> is_leading_byte_width_1(#[trigger] s[i]));
    partial_valid_utf8_extend_ascii_block(s, 0, s.len() as int);
    assert(s.subrange(0, s.len() as int) =~= s);
}

} // verus!
