//! The bytes-text value itself: a masked text form that can be loaned out
//! and returned, and the side table that drives reconstruction.

use vstd::prelude::*;
use vstd::string::StrSliceExecFns;
use vstd::utf8::*;

use crate::masking::ASCII_MAX;
use crate::masking::MaskTable;
use crate::masking::SUBSTITUTE;
use crate::masking::covers;
use crate::masking::lemma_ascii_valid_utf8;
use crate::masking::lemma_models_covers;
use crate::masking::lemma_table_for_models;
use crate::masking::mask;
use crate::masking::masked_value;
use crate::masking::record_byte;
use crate::masking::remask;
use crate::masking::rendered;
use crate::masking::table_for;
use crate::masking::table_has_value;
use crate::masking::table_index_of;
use crate::masking::table_wf;
use crate::masking::unmask;

verus! {

/// One entry of the side table: a masked byte value and the ascending
/// positions at which it occurred in the original byte sequence.
struct MaskEntry {
    value: u8,
    positions: Vec<usize>,
}

/// The model of one entry.
spec fn entry_view(e: MaskEntry) -> (u8, Seq<int>) {
    (e.value, e.positions@.map(|n: int, p: usize| p as int))
}

/// The model of the whole table.
spec fn entries_view(s: Seq<MaskEntry>) -> MaskTable {
    s.map(|j: int, e: MaskEntry| entry_view(e))
}

proof fn lemma_entries_view_update(s: Seq<MaskEntry>, j: int, e: MaskEntry)
    requires
        0 <= j < s.len(),
    ensures
        entries_view(s.update(j, e)) == entries_view(s).update(j, entry_view(e)),
{
    assert(entries_view(s.update(j, e)) =~~= entries_view(s).update(j, entry_view(e)));
}

proof fn lemma_entries_view_push(s: Seq<MaskEntry>, e: MaskEntry)
    ensures
        entries_view(s.push(e)) == entries_view(s).push(entry_view(e)),
{
    assert(entries_view(s.push(e)) =~~= entries_view(s).push(entry_view(e)));
}

/// Position `i` is written by the time the replay loops have finished entry
/// `j` up to (exclusively) element `k` of its position list.
spec fn applied(tv: MaskTable, j: int, k: int, i: int) -> bool {
    exists|a: int, n: int|
        0 <= a < tv.len() && 0 <= n < tv[a].1.len() && tv[a].1[n] == i && (a < j || (a == j && n
            < k))
}

/// The buffer as it stands mid-replay: positions already visited hold their
/// recorded value (or the sentinel), the rest still hold the input.
spec fn partial_write(orig: Seq<u8>, tv: MaskTable, j: int, k: int, restore: bool) -> Seq<u8> {
    Seq::new(
        orig.len(),
        |i: int|
            if applied(tv, j, k, i) {
                if restore {
                    masked_value(tv, i)
                } else {
                    SUBSTITUTE
                }
            } else {
                orig[i]
            },
    )
}

/// Replays the side table over a buffer, in place. With `restore` set, each
/// recorded position is overwritten with its recorded value (reconstruction);
/// otherwise with the sentinel (re-masking).
#[verifier::loop_isolation(false)]
fn apply_table(entries: &Vec<MaskEntry>, data: &mut Vec<u8>, restore: bool)
    requires
        table_wf(entries_view(entries@)),
        forall|i: int|
            #[trigger] covers(entries_view(entries@), i) ==> 0 <= i < old(data)@.len(),
    ensures
        final(data)@ == if restore {
            unmask(old(data)@, entries_view(entries@))
        } else {
            remask(old(data)@, entries_view(entries@))
        },
{
    let ghost tv = entries_view(entries@);
    let ghost orig = data@;
    proof {
        assert(data@ =~= partial_write(orig, tv, 0, 0, restore));
    }
    let mut j: usize = 0;
    while j < entries.len()
        invariant
            j <= entries.len(),
            data@ == partial_write(orig, tv, j as int, 0, restore),
        decreases entries.len() - j,
    {
        let value = if restore {
            entries[j].value
        } else {
            SUBSTITUTE
        };
        proof {
            assert(tv[j as int].0 == entries@[j as int].value);
            assert(tv[j as int].1.len() == entries@[j as int].positions@.len());
        }
        let mut k: usize = 0;
        while k < entries[j].positions.len()
            invariant
                k <= entries@[j as int].positions@.len(),
                data@ == partial_write(orig, tv, j as int, k as int, restore),
            decreases entries@[j as int].positions@.len() - k,
        {
            let p = entries[j].positions[k];
            proof {
                assert(tv[j as int].1[k as int] == p as int);
                assert(tv[j as int].1.contains(p as int));
                assert(covers(tv, p as int));
                assert(data@.len() == orig.len());
            }
            data[p] = value;
            proof {
                let ji = j as int;
                let ki = k as int;
                let pi = p as int;
                if restore {
                    assert(masked_value(tv, pi) == tv[ji].0) by {
                        let a = crate::masking::cover_entry(tv, pi);
                        assert(0 <= a < tv.len() && tv[a].1.contains(pi));
                        if a != ji {
                            assert(!tv[a].1.contains(pi));
                        }
                    }
                }
                assert forall|x: int| #[trigger] applied(tv, ji, ki + 1, x) implies (applied(
                    tv,
                    ji,
                    ki,
                    x,
                ) || x == pi) by {
                    let (a, n) = choose|a: int, n: int|
                        0 <= a < tv.len() && 0 <= n < tv[a].1.len() && tv[a].1[n] == x && (a < ji
                            || (a == ji && n < ki + 1));
                    if !(a == ji && n == ki) {
                        assert(applied(tv, ji, ki, x));
                    }
                }
                assert forall|x: int| #[trigger] applied(tv, ji, ki, x) implies applied(
                    tv,
                    ji,
                    ki + 1,
                    x,
                ) by {
                    let (a, n) = choose|a: int, n: int|
                        0 <= a < tv.len() && 0 <= n < tv[a].1.len() && tv[a].1[n] == x && (a < ji
                            || (a == ji && n < ki));
                    assert(0 <= a < tv.len() && 0 <= n < tv[a].1.len() && tv[a].1[n] == x && (a
                        < ji || (a == ji && n < ki + 1)));
                }
                assert(tv[ji].1[ki] == pi && (ji < ji || (ji == ji && ki < ki + 1)));
                assert(applied(tv, ji, ki + 1, pi));
                assert(data@ =~= partial_write(orig, tv, ji, ki + 1, restore));
            }
            k += 1;
        }
        proof {
            let ji = j as int;
            let len_j = tv[ji].1.len() as int;
            assert forall|x: int| #[trigger] applied(tv, ji, len_j, x) implies applied(
                tv,
                ji + 1,
                0,
                x,
            ) by {
                let (a, n) = choose|a: int, n: int|
                    0 <= a < tv.len() && 0 <= n < tv[a].1.len() && tv[a].1[n] == x && (a < ji || (
                    a == ji && n < len_j));
                assert(a < ji + 1);
                assert(applied(tv, ji + 1, 0, x));
            }
            assert forall|x: int| #[trigger] applied(tv, ji + 1, 0, x) implies applied(
                tv,
                ji,
                len_j,
                x,
            ) by {
                let (a, n) = choose|a: int, n: int|
                    0 <= a < tv.len() && 0 <= n < tv[a].1.len() && tv[a].1[n] == x && a < ji + 1;
                assert(a < ji || (a == ji && n < len_j));
                assert(applied(tv, ji, len_j, x));
            }
            assert(data@ =~= partial_write(orig, tv, ji + 1, 0, restore));
        }
        j += 1;
    }
    proof {
        let len = tv.len() as int;
        assert forall|x: int| #[trigger] applied(tv, len, 0, x) implies covers(tv, x) by {
            let (a, n) = choose|a: int, n: int|
                0 <= a < tv.len() && 0 <= n < tv[a].1.len() && tv[a].1[n] == x && a < len;
            assert(tv[a].1.contains(x));
        }
        assert forall|x: int| #[trigger] covers(tv, x) implies applied(tv, len, 0, x) by {
            let a = choose|a: int| 0 <= a < tv.len() && tv[a].1.contains(x);
            let n = choose|n: int| 0 <= n < tv[a].1.len() && tv[a].1[n] == x;
            assert(0 <= a < tv.len() && 0 <= n < tv[a].1.len() && tv[a].1[n] == x && a < len);
            assert(applied(tv, len, 0, x));
        }
        if restore {
            assert(data@ =~= unmask(orig, tv));
        } else {
            assert(data@ =~= remask(orig, tv));
        }
    }
}

/// Relies on `String::from_utf8`: it succeeds exactly on valid UTF-8 input
/// and returns the string whose encoding is that input. The `requires` rules
/// the failing inputs out, so the unwrap cannot fire for verified callers.
#[verifier::external_body]
fn utf8_to_string(v: Vec<u8>) -> (r: String)
    requires
        valid_utf8(v@),
    ensures
        r@ == decode_utf8(v@),
{
    String::from_utf8(v).unwrap()
}

/// Relies on `core::str::from_utf8`: it returns `Ok` exactly when the bytes
/// are a valid UTF-8 encoding.
#[verifier::external_body]
fn is_utf8(v: &Vec<u8>) -> (r: bool)
    ensures
        r == valid_utf8(v@),
{
    core::str::from_utf8(v.as_slice()).is_ok()
}

/// Relies on `String`'s `FromIterator` impl (through `collect`): the
/// collected string holds exactly the characters of the vector, in order.
#[verifier::external_body]
fn chars_to_string(v: Vec<char>) -> (r: String)
    ensures
        r@ == v@,
{
    v.into_iter().collect()
}

/// A byte sequence made printable-safe, together with the side table that
/// makes the masking reversible. At most one live representation (the text
/// form, or a byte buffer handed to the caller) exists at a time.
pub struct DataString {
    text_form: Option<Vec<u8>>,
    mask_table: Vec<MaskEntry>,
}

impl DataString {
    /// The currently held text form, as its UTF-8 bytes; `None` while the
    /// representation is loaned out.
    pub closed spec fn text(&self) -> Option<Seq<u8>> {
        match self.text_form {
            Some(ref v) => Some(v@),
            None => None,
        }
    }

    /// The side table recorded at construction.
    pub closed spec fn table(&self) -> MaskTable {
        entries_view(self.mask_table@)
    }

    /// Well-formedness: the table is well formed and the held text form, if
    /// any, is a valid UTF-8 encoding.
    pub closed spec fn wf(&self) -> bool {
        &&& table_wf(self.table())
        &&& match self.text_form {
            Some(ref v) => valid_utf8(v@),
            None => true,
        }
    }

    /// Every recorded position falls inside the held text form. Holds after
    /// construction and is needed to reconstruct the byte form.
    pub open spec fn positions_in_bounds(&self) -> bool {
        match self.text() {
            Some(t) => forall|i: int| #[trigger] covers(self.table(), i) ==> i < t.len(),
            None => true,
        }
    }

    /// Constructs the value from an arbitrary byte sequence. The sequence is
    /// scanned once, left to right: every byte above the 7-bit range is
    /// recorded in the side table under its value and overwritten with the
    /// sentinel. The masked copy becomes the initial text form.
    #[verifier::loop_isolation(false)]
    pub fn from_vec(data: Vec<u8>) -> (result: DataString)
        ensures
            result.wf(),
            result.text() == Some(mask(data@)),
            result.table() == table_for(data@),
            result.positions_in_bounds(),
    {
        let mut data = data;
        let ghost original = data@;
        let mut table: Vec<MaskEntry> = Vec::new();
        let mut i: usize = 0;
        while i < data.len()
            invariant
                i <= data.len(),
                data@.len() == original.len(),
                forall|k: int| 0 <= k < i ==> data@[k] == mask(original)[k],
                forall|k: int| i <= k < original.len() ==> data@[k] == original[k],
                entries_view(table@) == table_for(original.subrange(0, i as int)),
            decreases data.len() - i,
        {
            let ghost prefix = original.subrange(0, i as int);
            let ghost longer = original.subrange(0, i as int + 1);
            let ghost tv = entries_view(table@);
            proof {
                lemma_table_for_models(prefix);
                assert(longer.drop_last() =~= prefix);
                assert(longer.last() == original[i as int]);
                assert(table_for(longer) == record_byte(tv, original[i as int], i as int));
            }
            let b = data[i];
            proof {
                assert(b == original[i as int]);
            }
            if b > ASCII_MAX {
                let mut j: usize = 0;
                while j < table.len() && table[j].value != b
                    invariant
                        j <= table.len(),
                        forall|a: int| 0 <= a < j ==> (#[trigger] table@[a]).value != b,
                    decreases table.len() - j,
                {
                    j += 1;
                }
                if j < table.len() {
                    proof {
                        assert(tv[j as int].0 == b);
                        assert(table_has_value(tv, b));
                        let j0 = table_index_of(tv, b);
                        assert(0 <= j0 < tv.len() && tv[j0].0 == b);
                        assert(j0 == j as int);
                    }
                    let ghost old_table = table@;
                    let entry = &mut table[j];
                    entry.positions.push(i);
                    proof {
                        let e = table@[j as int];
                        assert(e.value == b);
                        assert(e.positions@ =~= old_table[j as int].positions@.push(i));
                        assert(table@ =~= old_table.update(j as int, e));
                        lemma_entries_view_update(old_table, j as int, e);
                        assert(entry_view(e).0 == b);
                        assert(entry_view(e).1 =~= tv[j as int].1.push(i as int));
                        assert(entries_view(table@) =~= record_byte(tv, b, i as int));
                    }
                } else {
                    proof {
                        assert(forall|a: int|
                            0 <= a < tv.len() ==> (#[trigger] tv[a]).0 != b);
                        assert(!table_has_value(tv, b));
                    }
                    let mut ps: Vec<usize> = Vec::new();
                    ps.push(i);
                    let ghost old_table = table@;
                    let fresh = MaskEntry { value: b, positions: ps };
                    table.push(fresh);
                    proof {
                        lemma_entries_view_push(old_table, fresh);
                        assert(entry_view(fresh).1 =~= seq![i as int]);
                        assert(entries_view(table@) =~= record_byte(tv, b, i as int));
                    }
                }
                data[i] = SUBSTITUTE;
                proof {
                    assert(data@[i as int] == mask(original)[i as int]);
                }
            } else {
                proof {
                    assert(record_byte(tv, b, i as int) == tv);
                    assert(data@[i as int] == mask(original)[i as int]);
                }
            }
            i += 1;
        }
        proof {
            assert(original.subrange(0, original.len() as int) =~= original);
            assert(data@ =~= mask(original));
            lemma_table_for_models(original);
            lemma_models_covers(table_for(original), original);
            assert(forall|k: int|
                0 <= k < data@.len() ==> #[trigger] data@[k] <= ASCII_MAX);
            lemma_ascii_valid_utf8(data@);
        }
        DataString { text_form: Some(data), mask_table: table }
    }

    /// Moves the text form out to the caller; `None` if it is already loaned
    /// out. The side table is neither consulted nor changed.
    pub fn take_string(&mut self) -> (result: Option<String>)
        requires
            old(self).wf(),
        ensures
            final(self).wf(),
            final(self).table() == old(self).table(),
            final(self).text() is None,
            match old(self).text() {
                Some(t) => result matches Some(s) && s@ == decode_utf8(t) && encode_utf8(s@)
                    == t,
                None => result is None,
            },
    {
        match self.text_form.take() {
            None => None,
            Some(v) => {
                proof {
                    decode_utf8_encode_utf8(v@);
                }
                Some(utf8_to_string(v))
            },
        }
    }

    /// Accepts a text form back. If none is held, `candidate` becomes the
    /// new text form and `None` signals success. If one is already held, the
    /// call is rejected: `candidate` comes back unchanged and the held text
    /// is untouched. No validation relates `candidate` to the original data;
    /// a caller may substitute an edited text.
    pub fn return_string(&mut self, candidate: String) -> (result: Option<String>)
        requires
            old(self).wf(),
        ensures
            final(self).wf(),
            final(self).table() == old(self).table(),
            match old(self).text() {
                Some(_) => result == Some(candidate) && final(self).text() == old(self).text(),
                None => result is None && final(self).text() == Some(encode_utf8(candidate@)),
            },
    {
        if self.text_form.is_some() {
            Some(candidate)
        } else {
            let bytes = candidate.as_str().as_bytes_vec();
            proof {
                encode_utf8_valid_utf8(candidate@);
            }
            self.text_form = Some(bytes);
            None
        }
    }

    /// Reconstructs and hands out the byte form: the text form is moved out
    /// and every position recorded in the side table is overwritten with its
    /// recorded value. `None` if no text form is held. Afterwards no
    /// representation is held until one is returned.
    pub fn take_data(&mut self) -> (result: Option<Vec<u8>>)
        requires
            old(self).wf(),
            old(self).positions_in_bounds(),
        ensures
            final(self).wf(),
            final(self).table() == old(self).table(),
            final(self).text() is None,
            match old(self).text() {
                Some(t) => result matches Some(d) && d@ == unmask(t, old(self).table()),
                None => result is None,
            },
    {
        let ghost tv = self.table();
        match self.text_form.take() {
            None => None,
            Some(v) => {
                let mut data = v;
                proof {
                    assert forall|i: int| #[trigger] covers(tv, i) implies 0 <= i
                        < data@.len() by {
                        let j = crate::masking::cover_entry(tv, i);
                        assert(0 <= j < tv.len() && tv[j].1.contains(i));
                        let n = choose|n: int| 0 <= n < tv[j].1.len() && tv[j].1[n] == i;
                        assert(tv[j].1[n] >= 0);
                    }
                }
                apply_table(&self.mask_table, &mut data, true);
                Some(data)
            },
        }
    }

    /// Accepts a byte buffer back without validating it against the original
    /// data: every recorded position is overwritten with the sentinel and
    /// the re-masked buffer becomes the new text form (`None` signals
    /// success). If a text form is already held, the call is rejected and
    /// the buffer comes back unchanged. The caller must supply a buffer
    /// shaped like the original — recorded positions in range, 7-bit bytes
    /// everywhere else; the `requires` states exactly that, and a final
    /// interpret-as-text check keeps the fatal stop for callers outside it.
    pub fn return_data_unchecked(&mut self, data: Vec<u8>) -> (result: Option<Vec<u8>>)
        requires
            old(self).wf(),
            old(self).text() is None ==> forall|i: int|
                #[trigger] covers(old(self).table(), i) ==> i < data@.len(),
            old(self).text() is None ==> forall|i: int|
                0 <= i < data@.len() && !covers(old(self).table(), i) ==> data@[i] <= ASCII_MAX,
        ensures
            final(self).wf(),
            final(self).table() == old(self).table(),
            match old(self).text() {
                Some(_) => result == Some(data) && final(self).text() == old(self).text(),
                None => result is None && final(self).text() == Some(
                    remask(data@, old(self).table()),
                ) && final(self).positions_in_bounds(),
            },
    {
        if self.text_form.is_some() {
            return Some(data);
        }
        let ghost tv = self.table();
        let ghost supplied = data@;
        let mut buf = data;
        proof {
            assert forall|i: int| #[trigger] covers(tv, i) implies 0 <= i < buf@.len() by {
                let j = crate::masking::cover_entry(tv, i);
                assert(0 <= j < tv.len() && tv[j].1.contains(i));
                let n = choose|n: int| 0 <= n < tv[j].1.len() && tv[j].1[n] == i;
                assert(tv[j].1[n] >= 0);
            }
        }
        apply_table(&self.mask_table, &mut buf, false);
        proof {
            assert(buf@ == remask(supplied, tv));
            assert forall|k: int| 0 <= k < buf@.len() implies #[trigger] buf@[k]
                <= ASCII_MAX by {
                if !covers(tv, k) {
                    assert(supplied[k] <= ASCII_MAX);
                }
            }
            lemma_ascii_valid_utf8(buf@);
        }
        let ok = is_utf8(&buf);
        if !ok {
            return unreached();
        }
        self.text_form = Some(buf);
        None
    }

    /// The current text form as raw bytes, without consuming it; an empty
    /// sequence if none is held.
    pub fn byte_view(&self) -> (result: Vec<u8>)
        ensures
            result@ == match self.text() {
                Some(t) => t,
                None => Seq::<u8>::empty(),
            },
    {
        match &self.text_form {
            None => Vec::new(),
            Some(v) => v.clone(),
        }
    }

    /// The current text form as a string, without consuming it; an empty
    /// string if none is held.
    pub fn string_view(&self) -> (result: String)
        requires
            self.wf(),
        ensures
            result@ == match self.text() {
                Some(t) => decode_utf8(t),
                None => Seq::<char>::empty(),
            },
    {
        match &self.text_form {
            None => String::new(),
            Some(v) => utf8_to_string(v.clone()),
        }
    }

    /// A human-readable rendering of the current text form: every occurrence
    /// of the sentinel's character is substituted with the Unicode
    /// replacement character. Presentation only — the stored state is never
    /// affected. An empty value renders as the empty string.
    #[verifier::loop_isolation(false)]
    pub fn display_string(&self) -> (result: String)
        requires
            self.wf(),
        ensures
            result@ == match self.text() {
                Some(t) => rendered(decode_utf8(t)),
                None => Seq::<char>::empty(),
            },
    {
        match &self.text_form {
            None => String::new(),
            Some(v) => {
                let s = utf8_to_string(v.clone());
                let n = s.as_str().unicode_len();
                let mut out: Vec<char> = Vec::new();
                let mut i: usize = 0;
                while i < n
                    invariant
                        i <= n,
                        n as nat == s@.len(),
                        out@ == rendered(s@).subrange(0, i as int),
                    decreases n - i,
                {
                    let c = s.as_str().get_char(i);
                    if c == '\u{1a}' {
                        out.push('\u{fffd}');
                    } else {
                        out.push(c);
                    }
                    proof {
                        assert(out@ =~= rendered(s@).subrange(0, i as int + 1));
                    }
                    i += 1;
                }
                proof {
                    assert(rendered(s@).subrange(0, n as int) =~= rendered(s@));
                }
                chars_to_string(out)
            },
        }
    }
}

} // verus!
