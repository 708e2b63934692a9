//! Recording the literals that single precision cannot hold.

use crate::bytes::same_bytes;
use crate::reals::scan::{objstm_payloads, payloads, scan_reals, tokens};
use crate::text::views;
use std::collections::BTreeMap;
use vstd::prelude::*;
use vstd::std_specs::iter::IteratorSpec;

verus! {

broadcast use {vstd::std_specs::btree::group_btree_axioms, vstd::laws_cmp::group_laws_cmp};

/// What a real literal means: the bits of its finite single-precision value,
/// the shortest spelling of that value, and the double-precision bits of the
/// literal.
pub struct Reading {
    pub narrow: u32,
    pub shortest: Vec<u8>,
    pub wide: u64,
}

/// The content of a [`Reading`].
pub struct ReadingValue {
    pub narrow: u32,
    pub shortest: Seq<u8>,
    pub wide: u64,
}

impl View for Reading {
    type V = ReadingValue;

    open spec fn view(&self) -> ReadingValue {
        ReadingValue {
            narrow: self.narrow,
            shortest: self.shortest@,
            wide: self.wide,
        }
    }
}

/// The content of an optional reading.
pub open spec fn reading_view(r: Option<Reading>) -> Option<ReadingValue> {
    match r {
        Some(v) => Some(v@),
        None => None,
    }
}

/// A reader of literals can be called on every text and depends on nothing
/// but the text.
pub open spec fn reads_text<F: Fn(&[u8]) -> Option<Reading>>(read: F) -> bool {
    &&& forall|t: &[u8]| #[trigger] read.requires((t,))
    &&& forall|t: &[u8], u: &[u8], a: Option<Reading>, b: Option<Reading>|
        #[trigger] read.ensures((t,), a) && #[trigger] read.ensures((u,), b) && t@ == u@
            ==> reading_view(a) == reading_view(b)
}

/// `read` may give `v` for the text `t`.
pub open spec fn may_read<F: Fn(&[u8]) -> Option<Reading>>(
    read: F,
    t: Seq<u8>,
    v: Option<ReadingValue>,
) -> bool {
    exists|s: &[u8], r: Option<Reading>|
        s@ == t && #[trigger] read.ensures((s,), r) && reading_view(r) == v
}

/// What `read` makes of the text `t`; `None` where it is no finite number.
pub open spec fn meaning<F: Fn(&[u8]) -> Option<Reading>>(read: F, t: Seq<u8>) -> Option<
    ReadingValue,
> {
    choose|v: Option<ReadingValue>| may_read(read, t, v)
}

/// Reads a text.
pub(crate) fn read_text<F: Fn(&[u8]) -> Option<Reading>>(read: &F, t: &[u8]) -> (r: Option<Reading>)
    requires
        reads_text(*read),
    ensures
        reading_view(r) == meaning(*read, t@),
{
    let r = read(t);
    proof {
        assert(may_read(*read, t@, reading_view(r)));
        let v = meaning(*read, t@);
        assert(may_read(*read, t@, v));
    }
    r
}

/// The literal is written with a point.
pub open spec fn has_point(t: Seq<u8>) -> bool {
    exists|i: int| 0 <= i < t.len() && #[trigger] t[i] == 0x2E
}

/// Token `t` has the single-precision bits `bits`.
pub open spec fn has_bits(
    m: spec_fn(Seq<u8>) -> Option<ReadingValue>,
    t: Seq<u8>,
    bits: u32,
) -> bool {
    m(t) is Some && m(t)->0.narrow == bits
}

/// The literal survives: its shortened form is the same number, or cannot be
/// told from it.
pub open spec fn survives(m: spec_fn(Seq<u8>) -> Option<ReadingValue>, t: Seq<u8>) -> bool {
    match m(m(t)->0.shortest) {
        Some(short) => short.wide == m(t)->0.wide,
        None => true,
    }
}

/// Token `t` is written back as it is: it is an integer, or a literal that
/// survives.
pub open spec fn keeps(m: spec_fn(Seq<u8>) -> Option<ReadingValue>, t: Seq<u8>) -> bool {
    !has_point(t) || survives(m, t)
}

/// Index of the first token with the bits `bits`, from `i` on.
pub open spec fn first_with(
    m: spec_fn(Seq<u8>) -> Option<ReadingValue>,
    list: Seq<Seq<u8>>,
    bits: u32,
    i: int,
) -> Option<int>
    decreases list.len() - i,
{
    if i < 0 || i >= list.len() {
        None
    } else if has_bits(m, list[i], bits) {
        Some(i)
    } else {
        first_with(m, list, bits, i + 1)
    }
}

/// The value `bits` drifts unambiguously: some literal has it, none of those
/// is written back as it is, and all of them are one number. An integer of
/// that value is such a literal too.
pub open spec fn drifts(
    m: spec_fn(Seq<u8>) -> Option<ReadingValue>,
    list: Seq<Seq<u8>>,
    bits: u32,
) -> bool {
    &&& exists|i: int| 0 <= i < list.len() && #[trigger] has_bits(m, list[i], bits)
    &&& forall|i: int|
        0 <= i < list.len() && #[trigger] has_bits(m, list[i], bits) ==> !keeps(m, list[i])
    &&& forall|i: int, j: int|
        0 <= i < list.len() && 0 <= j < list.len() && #[trigger] has_bits(m, list[i], bits)
            && #[trigger] has_bits(m, list[j], bits) ==> m(list[i])->0.wide == m(list[j])->0.wide
}

/// The literals to restore: for each value that drifts unambiguously, the
/// text of the first literal that has it.
pub open spec fn captured(
    m: spec_fn(Seq<u8>) -> Option<ReadingValue>,
    list: Seq<Seq<u8>>,
) -> Map<u32, Seq<u8>> {
    Map::new(
        |bits: u32| drifts(m, list, bits),
        |bits: u32| list[first_with(m, list, bits, 0)->0],
    )
}

/// Every number of a raw file: in plain sight, then in its object streams.
pub open spec fn file_tokens(input: Seq<u8>) -> Seq<Seq<u8>> {
    tokens(input, true) + payload_tokens(payloads(input), payloads(input).len() as int)
}

/// The numbers in the first `n` payloads.
pub open spec fn payload_tokens(list: Seq<Seq<u8>>, n: int) -> Seq<Seq<u8>>
    decreases n,
{
    if n <= 0 {
        Seq::empty()
    } else {
        payload_tokens(list, n - 1) + tokens(list[n - 1], false)
    }
}

/// The exact text of every real literal of the input that single precision
/// cannot hold, keyed by its single-precision bits.
pub struct RealLiterals {
    pub exact: BTreeMap<u32, Vec<u8>>,
}

impl View for RealLiterals {
    type V = Map<u32, Seq<u8>>;

    open spec fn view(&self) -> Map<u32, Seq<u8>> {
        self.exact@.map_values(|t: Vec<u8>| t@)
    }
}

/// The literal to write in place of `printed`: the exact text of a captured
/// value, where `printed` is the shortest spelling of that value, by its own
/// reading and by that of the text, and not that text itself.
pub open spec fn replaced_by(
    literals: Map<u32, Seq<u8>>,
    m: spec_fn(Seq<u8>) -> Option<ReadingValue>,
    printed: Seq<u8>,
) -> Option<Seq<u8>> {
    match m(printed) {
        None => None,
        Some(r) => {
            let exact = literals[r.narrow];
            if literals.contains_key(r.narrow) && r.shortest == printed && exact != printed && m(
                exact,
            ) is Some && m(exact)->0.shortest == printed {
                Some(exact)
            } else {
                None
            }
        },
    }
}

impl RealLiterals {
    /// Whether there is nothing to restore.
    pub fn is_empty(&self) -> (r: bool)
        ensures
            r == self@.is_empty(),
    {
        proof {
            assert(self@.dom() =~= self.exact@.dom());
        }
        self.exact.is_empty()
    }

    /// The literal to write in place of `printed`, where `printed` is exactly
    /// the shortest spelling of a captured value and differs from the input's
    /// own text for it.
    pub fn replacement<F: Fn(&[u8]) -> Option<Reading>>(&self, printed: &[u8], read: &F) -> (r:
        Option<Vec<u8>>)
        requires
            reads_text(*read),
        ensures
            crate::flate::opt_view(r) == replaced_by(
                self@,
                |t: Seq<u8>| meaning(*read, t),
                printed@,
            ),
    {
        let reading = read_text(read, printed)?;
        match self.exact.get(&reading.narrow) {
            None => None,
            Some(exact) => {
                proof {
                    assert(self@.contains_key(reading.narrow));
                    assert(self@[reading.narrow] == exact@);
                }
                if !same_bytes(reading.shortest.as_slice(), printed) || same_bytes(
                    exact.as_slice(),
                    printed,
                ) {
                    return None;
                }
                let own = read_text(read, exact.as_slice())?;
                if same_bytes(own.shortest.as_slice(), printed) {
                    Some(exact.clone())
                } else {
                    None
                }
            },
        }
    }
}

/// Whether a literal is written with a point.
fn contains_point(t: &[u8]) -> (r: bool)
    ensures
        r == has_point(t@),
{
    let mut i: usize = 0;
    while i < t.len()
        invariant
            i <= t@.len(),
            forall|k: int| 0 <= k < i ==> #[trigger] t@[k] != 0x2E,
        decreases t@.len() - i,
    {
        if t[i] == 0x2E {
            return true;
        }
        i += 1;
    }
    false
}

/// Whether a literal that was read survives.
fn check_survives<F: Fn(&[u8]) -> Option<Reading>>(reading: &Reading, read: &F) -> (r: bool)
    requires
        reads_text(*read),
    ensures
        r == match meaning(*read, reading.shortest@) {
            Some(short) => short.wide == reading.wide,
            None => true,
        },
{
    match read_text(read, reading.shortest.as_slice()) {
        Some(short) => short.wide == reading.wide,
        None => true,
    }
}

/// What is known of a value after some tokens: the first that has it, its
/// double-precision bits, and whether it is off limits.
struct Seen {
    index: usize,
    wide: u64,
    ambiguous: bool,
}

/// `seen` tells what the first `n` tokens say of each value.
spec fn tells(
    m: spec_fn(Seq<u8>) -> Option<ReadingValue>,
    list: Seq<Seq<u8>>,
    seen: Map<u32, Seen>,
    n: int,
) -> bool {
    &&& forall|bits: u32| #[trigger]
        seen.contains_key(bits) <==> first_with(m, list.take(n), bits, 0) is Some
    &&& forall|bits: u32| #[trigger]
        seen.contains_key(bits) ==> {
            let s = seen[bits];
            let first = first_with(m, list.take(n), bits, 0)->0;
            &&& s.index == first
            &&& 0 <= first < n
            &&& has_bits(m, list[first], bits)
            &&& s.wide == m(list[first])->0.wide
            &&& s.ambiguous <==> !drifts(m, list.take(n), bits)
        }
}

/// A first token is a token, and none has the bits where there is none.
proof fn lemma_first_with(
    m: spec_fn(Seq<u8>) -> Option<ReadingValue>,
    list: Seq<Seq<u8>>,
    bits: u32,
    i: int,
)
    requires
        0 <= i,
    ensures
        match first_with(m, list, bits, i) {
            Some(k) => i <= k < list.len() && has_bits(m, list[k], bits) && forall|j: int|
                i <= j < k ==> !#[trigger] has_bits(m, list[j], bits),
            None => forall|j: int|
                i <= j < list.len() ==> !#[trigger] has_bits(m, list[j], bits),
        },
    decreases list.len() - i,
{
    if i < list.len() && !has_bits(m, list[i], bits) {
        lemma_first_with(m, list, bits, i + 1);
    }
}

/// What one more token changes for the value `bits`.
proof fn lemma_one_more(
    m: spec_fn(Seq<u8>) -> Option<ReadingValue>,
    list: Seq<Seq<u8>>,
    n: int,
    bits: u32,
)
    requires
        0 <= n < list.len(),
    ensures
        ({
            let before = list.take(n);
            let after = list.take(n + 1);
            let had = first_with(m, before, bits, 0);
            if !has_bits(m, list[n], bits) {
                &&& first_with(m, after, bits, 0) == had
                &&& had is Some ==> drifts(m, after, bits) == drifts(m, before, bits)
            } else if had is Some {
                &&& first_with(m, after, bits, 0) == had
                &&& drifts(m, after, bits) == (drifts(m, before, bits) && !keeps(m, list[n]) && m(list[n])->0.wide == m(list[had->0])->0.wide)
            } else {
                &&& first_with(m, after, bits, 0) == Some(n)
                &&& drifts(m, after, bits) == !keeps(m, list[n])
            }
        }),
{
    let before = list.take(n);
    let after = list.take(n + 1);
    lemma_first_with(m, before, bits, 0);
    lemma_first_with(m, after, bits, 0);
    assert(forall|i: int| 0 <= i < n ==> #[trigger] before[i] == after[i]);
    assert(after[n] == list[n]);
    let had = first_with(m, before, bits, 0);
    let has = first_with(m, after, bits, 0);
    assert forall|i: int| 0 <= i < n implies #[trigger] has_bits(m, before[i], bits) == has_bits(
        m,
        after[i],
        bits,
    ) by {}
    if had is Some {
        let h = had->0;
        assert(has_bits(m, before[h], bits));
        assert(has_bits(m, after[h], bits));
        assert(has is Some);
        assert(has->0 == h) by {
            if has->0 < h {
                assert(has_bits(m, before[has->0], bits));
            }
        }
    } else {
        assert forall|i: int| 0 <= i < n implies !#[trigger] has_bits(m, after[i], bits) by {
            assert(!has_bits(m, before[i], bits));
        }
        if has is Some {
            assert(has->0 == n);
        }
    }
    if had is Some {
        let h = had->0;
        assert(list[h] == before[h]);
        if drifts(m, after, bits) {
            assert(drifts(m, before, bits)) by {
                assert forall|i: int|
                    0 <= i < n && #[trigger] has_bits(m, before[i], bits) implies !keeps(m, before[i]) by {
                    assert(has_bits(m, after[i], bits));
                }
                assert forall|i: int, j: int|
                    0 <= i < n && 0 <= j < n && #[trigger] has_bits(m, before[i], bits)
                        && #[trigger] has_bits(m, before[j], bits) implies m(before[i])->0.wide == m(before[j])->0.wide by {
                    assert(has_bits(m, after[i], bits) && has_bits(m, after[j], bits));
                }
            }
            if has_bits(m, list[n], bits) {
                assert(has_bits(m, after[n], bits) && has_bits(m, after[h], bits));
            }
        }
        if drifts(m, before, bits) && (!has_bits(m, list[n], bits) || (!keeps(m, list[n]) && m(list[n])->0.wide == m(list[h])->0.wide)) {
            assert(drifts(m, after, bits)) by {
                assert forall|i: int|
                    0 <= i < n + 1 && #[trigger] has_bits(m, after[i], bits) implies !keeps(m, after[i]) && m(after[i])->0.wide == m(list[h])->0.wide by {
                    if i < n {
                        assert(has_bits(m, before[i], bits) && has_bits(m, before[h], bits));
                    }
                }
            }
        }
    } else if has_bits(m, list[n], bits) {
        assert(has_bits(m, after[n], bits));
        assert forall|i: int| 0 <= i < n + 1 && #[trigger] has_bits(m, after[i], bits) implies i
            == n by {}
    }
}

/// Records which of the literals do not survive and can be restored without
/// doubt.
pub fn capture_tokens<F: Fn(&[u8]) -> Option<Reading>>(list: &Vec<Vec<u8>>, read: &F) -> (r:
    RealLiterals)
    requires
        reads_text(*read),
    ensures
        r@ == captured(|t: Seq<u8>| meaning(*read, t), views(list@)),
{
    let ghost m = |t: Seq<u8>| meaning(*read, t);
    let ghost model = views(list@);
    let mut seen: BTreeMap<u32, Seen> = BTreeMap::new();
    let mut n: usize = 0;
    proof {
        assert forall|bits: u32| first_with(m, model.take(0), bits, 0) is None by {}
        assert(tells(m, model, seen@, 0));
    }
    while n < list.len()
        invariant
            n <= list@.len(),
            reads_text(*read),
            m == |t: Seq<u8>| meaning(*read, t),
            model == views(list@),
            tells(m, model, seen@, n as int),
        decreases list@.len() - n,
    {
        let ghost before = seen@;
        let ghost mut touched: Option<u32> = None;
        proof {
            assert(model[n as int] == list@[n as int]@);
        }
        match read_text(read, list[n].as_slice()) {
            Some(reading) => {
                let bits: u32 = reading.narrow;
                let kept = !contains_point(list[n].as_slice()) || check_survives(&reading, read);
                proof {
                    touched = Some(bits);
                    assert(has_bits(m, model[n as int], bits));
                }
                let new = match seen.get(&bits) {
                    Some(s) => Seen {
                        index: s.index,
                        wide: s.wide,
                        ambiguous: s.ambiguous || kept || s.wide != reading.wide,
                    },
                    None => Seen { index: n, wide: reading.wide, ambiguous: kept },
                };
                seen.insert(bits, new);
            },
            None => {},
        }
        proof {
            assert forall|bits: u32| touched != Some(bits) implies !has_bits(
                m,
                model[n as int],
                bits,
            ) by {}
            assert forall|bits: u32| #[trigger]
                seen@.contains_key(bits) <==> first_with(
                    m,
                    model.take(n + 1),
                    bits,
                    0,
                ) is Some by {
                lemma_one_more(m, model, n as int, bits);
                assert(before.contains_key(bits) <==> first_with(
                    m,
                    model.take(n as int),
                    bits,
                    0,
                ) is Some);
            }
            assert forall|bits: u32| #[trigger] seen@.contains_key(bits) implies {
                let s = seen@[bits];
                let first = first_with(m, model.take(n + 1), bits, 0)->0;
                &&& s.index == first
                &&& 0 <= first < n + 1
                &&& has_bits(m, model[first], bits)
                &&& s.wide == m(model[first])->0.wide
                &&& s.ambiguous <==> !drifts(m, model.take(n + 1), bits)
            } by {
                lemma_one_more(m, model, n as int, bits);
                assert(before.contains_key(bits) <==> first_with(
                    m,
                    model.take(n as int),
                    bits,
                    0,
                ) is Some);
            }
        }
        n += 1;
    }
    proof {
        assert(model.take(n as int) =~= model);
    }
    let mut exact: BTreeMap<u32, Vec<u8>> = BTreeMap::new();
    let ghost goal = captured(m, model);
    let ghost entries = seen.iter().remaining();
    for kv in iter: seen.iter()
        invariant
            iter.seq() == entries,
            model == views(list@),
            goal == captured(m, model),
            tells(m, model, seen@, list@.len() as int),
            model.take(list@.len() as int) == model,
            forall|i: int|
                0 <= i < entries.len() ==> seen@.contains_key(*(#[trigger] entries[i]).0)
                    && seen@[*entries[i].0] == *entries[i].1,
            forall|bits: u32| #[trigger]
                exact@.contains_key(bits) ==> goal.contains_key(bits) && exact@[bits]@
                    == goal[bits],
            forall|i: int|
                0 <= i < iter.index() && goal.contains_key(*(#[trigger] entries[i]).0)
                    ==> exact@.contains_key(*entries[i].0),
    {
        let bits: u32 = *kv.0;
        proof {
            assert(entries[iter.index()] == kv);
            assert(seen@.contains_key(bits) && seen@[bits] == *kv.1);
        }
        if !kv.1.ambiguous {
            let text: Vec<u8> = list[kv.1.index].clone();
            proof {
                assert(model[kv.1.index as int] == list@[kv.1.index as int]@);
                assert(goal.contains_key(bits));
            }
            exact.insert(bits, text);
        }
    }
    let r = RealLiterals { exact };
    proof {
        assert forall|bits: u32| goal.contains_key(bits) implies exact@.contains_key(bits) by {
            let i = choose|i: int| 0 <= i < model.len() && #[trigger] has_bits(m, model[i], bits);
            lemma_first_with(m, model, bits, 0);
            assert(seen@.contains_key(bits));
            assert(entries.contains((&bits, &seen@[bits])));
            let k = choose|k: int| 0 <= k < entries.len() && entries[k] == (&bits, &seen@[bits]);
            assert(*entries[k].0 == bits);
        }
        assert(r@ =~= goal);
    }
    r
}

/// Records the input's real literals that will not survive single precision.
///
/// Scans the raw bytes, plain object bodies and the payload of every
/// `FlateDecode` object stream, skipping comments, strings and stream
/// payloads. Anything that cannot be read contributes nothing: the reals
/// inside it are then left as they are written. `read` tells what a literal
/// means in single and double precision.
pub fn capture<F: Fn(&[u8]) -> Option<Reading>>(input: &[u8], read: &F) -> (r: RealLiterals)
    requires
        reads_text(*read),
    ensures
        r@ == captured(|t: Seq<u8>| meaning(*read, t), file_tokens(input@)),
{
    let mut list = scan_reals(input, true);
    let parts = objstm_payloads(input);
    let ghost front = views(list@);
    let ghost inner = views(parts@);
    let mut i: usize = 0;
    proof {
        assert(views(list@) =~= front + payload_tokens(inner, 0));
    }
    while i < parts.len()
        invariant
            i <= parts@.len(),
            inner == views(parts@),
            views(list@) == front + payload_tokens(inner, i as int),
        decreases parts@.len() - i,
    {
        let ghost before = views(list@);
        let mut more = scan_reals(parts[i].as_slice(), false);
        let ghost added = views(more@);
        proof {
            assert(inner[i as int] == parts@[i as int]@);
        }
        list.append(&mut more);
        i += 1;
        proof {
            assert(views(list@) =~= before + added);
            assert(views(list@) =~= front + payload_tokens(inner, i as int));
        }
    }
    capture_tokens(&list, read)
}

} // verus!
