//! Searching byte strings and reading and writing decimal numbers, as the
//! passes that work on serialized PDF syntax need it.

use vstd::prelude::*;

verus! {

/// `needle` stands in `h` at `i`.
pub open spec fn occurs_at(h: Seq<u8>, needle: Seq<u8>, i: int) -> bool {
    0 <= i && i + needle.len() <= h.len() && h.subrange(i, i + needle.len()) == needle
}

/// First place at or after `i` where `needle` stands in `h`.
pub open spec fn find_from(h: Seq<u8>, needle: Seq<u8>, i: int) -> Option<int>
    decreases h.len() - i + 1,
{
    if i < 0 || i + needle.len() > h.len() {
        None
    } else if occurs_at(h, needle, i) {
        Some(i)
    } else {
        find_from(h, needle, i + 1)
    }
}

/// Last place at or before `i` where `needle` stands in `h`.
pub open spec fn find_last(h: Seq<u8>, needle: Seq<u8>, i: int) -> Option<int>
    decreases i + 1,
{
    if i < 0 {
        None
    } else if occurs_at(h, needle, i) {
        Some(i)
    } else {
        find_last(h, needle, i - 1)
    }
}

/// Last place where `needle` stands in `h` and ends at or before `before`.
pub open spec fn find_before(h: Seq<u8>, needle: Seq<u8>, before: int) -> Option<int> {
    if 0 <= before <= h.len() {
        find_last(h, needle, before - needle.len())
    } else {
        None
    }
}

/// `needle` stands in `h`.
pub open spec fn has_sub(h: Seq<u8>, needle: Seq<u8>) -> bool {
    find_from(h, needle, 0) is Some
}

/// What is found is an occurrence in range.
pub proof fn lemma_find_from(h: Seq<u8>, needle: Seq<u8>, i: int)
    ensures
        find_from(h, needle, i) is Some ==> {
            let at = find_from(h, needle, i)->0;
            occurs_at(h, needle, at) && i <= at && at + needle.len() <= h.len()
        },
    decreases h.len() - i + 1,
{
    if !(i < 0 || i + needle.len() > h.len() || occurs_at(h, needle, i)) {
        lemma_find_from(h, needle, i + 1);
    }
}

/// Nothing stands before what is found.
pub proof fn lemma_find_from_first(h: Seq<u8>, needle: Seq<u8>, i: int, j: int)
    requires
        0 <= i <= j,
        occurs_at(h, needle, j),
    ensures
        find_from(h, needle, i) is Some,
        find_from(h, needle, i)->0 <= j,
    decreases j - i,
{
    if i < j && !occurs_at(h, needle, i) {
        lemma_find_from_first(h, needle, i + 1, j);
    }
}

/// What is found backwards is an occurrence in range.
pub proof fn lemma_find_last(h: Seq<u8>, needle: Seq<u8>, i: int)
    ensures
        find_last(h, needle, i) is Some ==> {
            let at = find_last(h, needle, i)->0;
            occurs_at(h, needle, at) && 0 <= at <= i
        },
    decreases i + 1,
{
    if i >= 0 && !occurs_at(h, needle, i) {
        lemma_find_last(h, needle, i - 1);
    }
}

/// Whether `needle` stands in `h` at `i`.
pub fn matches_at(h: &[u8], needle: &[u8], i: usize) -> (r: bool)
    ensures
        r == occurs_at(h@, needle@, i as int),
{
    if i > h.len() || needle.len() > h.len() - i {
        return false;
    }
    let mut k: usize = 0;
    while k < needle.len()
        invariant
            k <= needle@.len(),
            i + needle@.len() <= h@.len() <= usize::MAX,
            forall|j: int| 0 <= j < k ==> h@[i + j] == needle@[j],
        decreases needle@.len() - k,
    {
        if h[i + k] != needle[k] {
            proof {
                assert(h@.subrange(i as int, i + needle@.len())[k as int] != needle@[k as int]);
            }
            return false;
        }
        k += 1;
    }
    proof {
        assert(h@.subrange(i as int, i + needle@.len()) =~= needle@);
    }
    true
}

/// First index of `needle` in `haystack` at or after `from`.
pub fn find_sub(haystack: &[u8], needle: &[u8], from: usize) -> (r: Option<usize>)
    requires
        needle@.len() > 0,
    ensures
        match r {
            Some(at) => find_from(haystack@, needle@, from as int) == Some(at as int) && from <= at
                && occurs_at(haystack@, needle@, at as int) && at + needle@.len()
                <= haystack@.len() <= usize::MAX,
            None => find_from(haystack@, needle@, from as int) is None,
        },
{
    let total: usize = haystack.len();
    let mut i: usize = from;
    while i < total && needle.len() <= total - i
        invariant
            from <= i,
            total == haystack@.len(),
            i <= total || i == from,
            needle@.len() > 0,
            find_from(haystack@, needle@, from as int) == find_from(
                haystack@,
                needle@,
                i as int,
            ),
        decreases total - i,
    {
        if matches_at(haystack, needle, i) {
            return Some(i);
        }
        i += 1;
    }
    None
}

/// Whether `needle` stands in `haystack`.
pub fn contains_sub(haystack: &[u8], needle: &[u8]) -> (r: bool)
    requires
        needle@.len() > 0,
    ensures
        r == has_sub(haystack@, needle@),
{
    find_sub(haystack, needle, 0).is_some()
}

/// Last index of `needle` in `haystack`, ending at or before `before`.
pub fn rfind_sub(haystack: &[u8], needle: &[u8], before: usize) -> (r: Option<usize>)
    requires
        needle@.len() > 0,
    ensures
        match r {
            Some(at) => find_before(haystack@, needle@, before as int) == Some(at as int)
                && occurs_at(haystack@, needle@, at as int) && at + needle@.len() <= before
                <= haystack@.len(),
            None => find_before(haystack@, needle@, before as int) is None,
        },
{
    if before > haystack.len() || needle.len() > before {
        return None;
    }
    let mut i: usize = before - needle.len();
    loop
        invariant
            i + needle@.len() <= before <= haystack@.len(),
            needle@.len() > 0,
            find_before(haystack@, needle@, before as int) == find_last(
                haystack@,
                needle@,
                i as int,
            ),
        decreases i,
    {
        if matches_at(haystack, needle, i) {
            return Some(i);
        }
        if i == 0 {
            proof {
                assert(find_last(haystack@, needle@, -1) is None);
            }
            return None;
        }
        i -= 1;
    }
}

/// Last index of `needle` in `haystack`, ending at or before `before`, where
/// it is no less than `floor`; nothing below `floor` is looked at.
pub fn rfind_within(haystack: &[u8], needle: &[u8], floor: usize, before: usize) -> (r: Option<
    usize,
>)
    requires
        needle@.len() > 0,
    ensures
        match r {
            Some(at) => find_before(haystack@, needle@, before as int) == Some(at as int)
                && occurs_at(haystack@, needle@, at as int) && floor <= at && at + needle@.len()
                <= before <= haystack@.len(),
            None => match find_before(haystack@, needle@, before as int) {
                Some(at) => at < floor,
                None => true,
            },
        },
{
    if before > haystack.len() || needle.len() > before {
        return None;
    }
    let mut i: usize = before - needle.len();
    loop
        invariant
            i + needle@.len() <= before <= haystack@.len(),
            needle@.len() > 0,
            find_before(haystack@, needle@, before as int) == find_last(
                haystack@,
                needle@,
                i as int,
            ),
        decreases i,
    {
        if i < floor {
            proof {
                lemma_find_last(haystack@, needle@, i as int);
            }
            return None;
        }
        if matches_at(haystack, needle, i) {
            return Some(i);
        }
        if i == 0 {
            proof {
                assert(find_last(haystack@, needle@, -1) is None);
            }
            return None;
        }
        i -= 1;
    }
}

// --- digits and blanks ------------------------------------------------------------

/// `0` to `9`.
pub open spec fn is_digit(b: u8) -> bool {
    0x30 <= b <= 0x39
}

/// ASCII white space: space, tab, line feed, form feed, carriage return.
pub open spec fn is_blank(b: u8) -> bool {
    b == 0x20 || b == 0x09 || b == 0x0A || b == 0x0C || b == 0x0D
}

/// Whether `b` is a digit.
pub fn digit(b: u8) -> (r: bool)
    ensures
        r == is_digit(b),
{
    0x30 <= b && b <= 0x39
}

/// Whether `b` is ASCII white space.
pub fn blank(b: u8) -> (r: bool)
    ensures
        r == is_blank(b),
{
    b == 0x20 || b == 0x09 || b == 0x0A || b == 0x0C || b == 0x0D
}

/// End of the run of digits that starts at `i`.
pub open spec fn digits_end(s: Seq<u8>, i: int) -> int
    decreases s.len() - i,
{
    if 0 <= i < s.len() && is_digit(s[i]) {
        digits_end(s, i + 1)
    } else {
        i
    }
}

/// End of the run of blanks that starts at `i`.
pub open spec fn blanks_end(s: Seq<u8>, i: int) -> int
    decreases s.len() - i,
{
    if 0 <= i < s.len() && is_blank(s[i]) {
        blanks_end(s, i + 1)
    } else {
        i
    }
}

/// End of the run of bytes other than blanks that starts at `i`.
pub open spec fn word_end(s: Seq<u8>, i: int) -> int
    decreases s.len() - i,
{
    if 0 <= i < s.len() && !is_blank(s[i]) {
        word_end(s, i + 1)
    } else {
        i
    }
}

/// The run of digits is a run of digits.
pub proof fn lemma_digits_end(s: Seq<u8>, i: int)
    requires
        0 <= i,
    ensures
        i <= digits_end(s, i),
        i <= s.len() ==> digits_end(s, i) <= s.len(),
        forall|k: int| i <= k < digits_end(s, i) ==> is_digit(#[trigger] s[k]),
        digits_end(s, i) < s.len() ==> !is_digit(s[digits_end(s, i)]),
    decreases s.len() - i,
{
    if 0 <= i < s.len() && is_digit(s[i]) {
        lemma_digits_end(s, i + 1);
    }
}

/// Index just past the digit run that starts at `from`; `from` itself where
/// there is no digit.
pub fn end_of_digits(data: &[u8], from: usize) -> (r: usize)
    ensures
        r == digits_end(data@, from as int),
        from <= r,
        from <= data@.len() ==> r <= data@.len(),
        forall|k: int| from <= k < r ==> is_digit(#[trigger] data@[k]),
{
    let mut i: usize = from;
    while i < data.len() && digit(data[i])
        invariant
            from <= i,
            from <= data@.len() ==> i <= data@.len(),
            digits_end(data@, from as int) == digits_end(data@, i as int),
            forall|k: int| from <= k < i ==> is_digit(#[trigger] data@[k]),
        decreases data@.len() - i,
    {
        i += 1;
    }
    i
}

/// Index just past the digit run that starts at `from`, or `None` if there
/// is no digit there.
pub fn skip_ascii_digits(data: &[u8], from: usize) -> (r: Option<usize>)
    ensures
        match r {
            Some(end) => end == digits_end(data@, from as int) && from < end <= data@.len()
                && forall|k: int| from <= k < end ==> is_digit(#[trigger] data@[k]),
            None => digits_end(data@, from as int) == from,
        },
{
    let end: usize = end_of_digits(data, from);
    if end > from {
        proof {
            lemma_digits_end(data@, from as int);
        }
        Some(end)
    } else {
        None
    }
}

/// Index just past the blanks that start at `from`.
pub fn skip_blanks(data: &[u8], from: usize) -> (r: usize)
    ensures
        r == blanks_end(data@, from as int),
        from <= r,
        from <= data@.len() ==> r <= data@.len(),
        forall|k: int| from <= k < r ==> is_blank(#[trigger] data@[k]),
{
    let mut i: usize = from;
    while i < data.len() && blank(data[i])
        invariant
            from <= i,
            from <= data@.len() ==> i <= data@.len(),
            blanks_end(data@, from as int) == blanks_end(data@, i as int),
            forall|k: int| from <= k < i ==> is_blank(#[trigger] data@[k]),
        decreases data@.len() - i,
    {
        i += 1;
    }
    i
}

/// Index just past the word that starts at `from`.
fn end_of_word(data: &[u8], from: usize) -> (r: usize)
    ensures
        r == word_end(data@, from as int),
        from <= r,
        from <= data@.len() ==> r <= data@.len(),
        from < data@.len() && !is_blank(data@[from as int]) ==> from < r,
{
    let mut i: usize = from;
    while i < data.len() && !blank(data[i])
        invariant
            from <= i,
            from <= data@.len() ==> i <= data@.len(),
            word_end(data@, from as int) == word_end(data@, i as int),
        decreases data@.len() - i,
    {
        i += 1;
    }
    i
}

// --- decimal numbers ----------------------------------------------------------------

/// Every byte is a digit.
pub open spec fn all_digits(s: Seq<u8>) -> bool {
    forall|i: int| 0 <= i < s.len() ==> is_digit(#[trigger] s[i])
}

/// The number that a run of digits spells.
pub open spec fn digits_value(s: Seq<u8>) -> nat
    decreases s.len(),
{
    if s.len() == 0 {
        0
    } else {
        digits_value(s.drop_last()) * 10 + (s.last() - 0x30) as nat
    }
}

/// The shortest spelling of `n`.
pub open spec fn decimal_digits(n: nat) -> Seq<u8>
    decreases n,
{
    if n < 10 {
        seq![(0x30 + n) as u8]
    } else {
        decimal_digits(n / 10).push((0x30 + n % 10) as u8)
    }
}

/// What is spelled reads back.
pub proof fn decimal_reads_back(n: nat)
    ensures
        all_digits(decimal_digits(n)),
        digits_value(decimal_digits(n)) == n,
        decimal_digits(n).len() > 0,
    decreases n,
{
    if n < 10 {
        assert(decimal_digits(n).drop_last() =~= Seq::empty());
        assert(decimal_digits(n).last() == 0x30 + n);
        assert(digits_value(Seq::empty()) == 0);
    } else {
        decimal_reads_back(n / 10);
        assert(decimal_digits(n).drop_last() =~= decimal_digits(n / 10));
    }
}

/// A prefix spells no greater number.
proof fn lemma_digits_prefix(s: Seq<u8>, k: int)
    requires
        all_digits(s),
        0 <= k <= s.len(),
    ensures
        digits_value(s.take(k)) <= digits_value(s),
    decreases s.len(),
{
    if k < s.len() {
        let init = s.drop_last();
        assert(all_digits(init)) by {
            assert forall|i: int| 0 <= i < init.len() implies is_digit(#[trigger] init[i]) by {
                assert(init[i] == s[i]);
            }
        }
        lemma_digits_prefix(init, k);
        assert(init.take(k) =~= s.take(k));
    } else {
        assert(s.take(k) =~= s);
    }
}

/// The number that the digits in `data[from..to]` spell, where it is at most
/// `limit`.
pub fn parse_digits(data: &[u8], from: usize, to: usize, limit: u64) -> (r: Option<u64>)
    requires
        from <= to <= data@.len(),
        forall|k: int| from <= k < to ==> is_digit(#[trigger] data@[k]),
    ensures
        match r {
            Some(v) => v == digits_value(data@.subrange(from as int, to as int)) && v <= limit,
            None => digits_value(data@.subrange(from as int, to as int)) > limit,
        },
{
    let ghost s = data@.subrange(from as int, to as int);
    let mut value: u64 = 0;
    let mut i: usize = from;
    proof {
        assert(all_digits(s)) by {
            assert forall|k: int| 0 <= k < s.len() implies is_digit(#[trigger] s[k]) by {
                assert(s[k] == data@[from + k]);
            }
        }
        assert(s.take(0) =~= Seq::empty());
    }
    while i < to
        invariant
            from <= i <= to <= data@.len(),
            s == data@.subrange(from as int, to as int),
            all_digits(s),
            forall|k: int| from <= k < to ==> is_digit(#[trigger] data@[k]),
            value == digits_value(s.take(i - from)),
            value <= limit,
        decreases to - i,
    {
        let d: u64 = (data[i] - 0x30) as u64;
        proof {
            let t = s.take(i - from + 1);
            assert(t.drop_last() =~= s.take(i - from));
            assert(t.last() == data@[i as int]);
            lemma_digits_prefix(s, i - from + 1);
        }
        if value > 0x1999_9999_9999_9999 || (value == 0x1999_9999_9999_9999 && d > 5) {
            return None;
        }
        let next: u64 = value * 10 + d;
        if next > limit {
            return None;
        }
        value = next;
        i += 1;
    }
    proof {
        assert(s.take(i - from) =~= s);
    }
    Some(value)
}

/// The spelling of `n`.
pub fn decimal(n: u64) -> (r: Vec<u8>)
    ensures
        r@ == decimal_digits(n as nat),
{
    let mut digits: Vec<u8> = Vec::new();
    let mut rest: u64 = n;
    let ghost mut tail: Seq<u8> = Seq::empty();
    proof {
        assert(decimal_digits(n as nat) =~= decimal_digits(rest as nat) + tail);
    }
    while rest >= 10
        invariant
            decimal_digits(n as nat) == decimal_digits(rest as nat) + tail,
            digits@.len() == tail.len(),
            forall|k: int| 0 <= k < tail.len() ==> #[trigger] digits@[k] == tail[tail.len() - 1 - k],
        decreases rest,
    {
        let d: u8 = (0x30 + rest % 10) as u8;
        proof {
            let before = tail;
            tail = seq![d] + tail;
            assert(decimal_digits(rest as nat) + before =~= decimal_digits((rest / 10) as nat)
                + tail);
        }
        digits.push(d);
        rest = rest / 10;
    }
    digits.push((0x30 + rest) as u8);
    let ghost all = decimal_digits(n as nat);
    proof {
        assert(all =~= seq![(0x30 + rest) as u8] + tail);
    }
    let total: usize = digits.len();
    let mut out: Vec<u8> = Vec::new();
    let mut i: usize = 0;
    while i < total
        invariant
            i <= total,
            total == digits@.len() == all.len(),
            forall|k: int| 0 <= k < total ==> #[trigger] digits@[k] == all[total - 1 - k],
            out@ == all.take(i as int),
        decreases total - i,
    {
        out.push(digits[total - 1 - i]);
        i += 1;
        proof {
            assert(out@ =~= all.take(i as int));
        }
    }
    proof {
        assert(all.take(total as int) =~= all);
    }
    out
}

/// The spelling of a length or an offset.
pub fn decimal_usize(n: usize) -> (r: Vec<u8>)
    ensures
        r@ == decimal_digits(n as nat),
{
    decimal(n as u64)
}

/// The shortest spelling of a signed number.
pub open spec fn signed_digits(i: int) -> Seq<u8> {
    if i < 0 {
        seq![0x2Du8] + decimal_digits((-i) as nat)
    } else {
        decimal_digits(i as nat)
    }
}

/// The spelling of a signed number.
pub fn signed_decimal(i: i64) -> (r: Vec<u8>)
    ensures
        r@ == signed_digits(i as int),
{
    if i >= 0 {
        return decimal(i as u64);
    }
    let mut out: Vec<u8> = Vec::new();
    out.push(0x2D);
    let mut digits = decimal((-(i + 1)) as u64 + 1);
    out.append(&mut digits);
    proof {
        assert(out@ =~= signed_digits(i as int));
    }
    out
}

// --- words -------------------------------------------------------------------------------

/// The words of `s` from `i` on, parted by ASCII white space.
pub open spec fn words_from(s: Seq<u8>, i: int) -> Seq<Seq<u8>>
    decreases s.len() - i,
{
    let from = blanks_end(s, i);
    let to = word_end(s, from);
    if !(0 <= i <= from && from < to <= s.len()) {
        Seq::empty()
    } else {
        seq![s.subrange(from, to)] + words_from(s, to)
    }
}

/// The words of `s`.
pub open spec fn words(s: Seq<u8>) -> Seq<Seq<u8>> {
    words_from(s, 0)
}

/// The contents of a list of byte strings.
pub open spec fn views(list: Seq<Vec<u8>>) -> Seq<Seq<u8>> {
    list.map_values(|v: Vec<u8>| v@)
}

/// Parts `data` at ASCII white space.
pub fn split_words(data: &[u8]) -> (r: Vec<Vec<u8>>)
    ensures
        views(r@) == words(data@),
{
    let mut out: Vec<Vec<u8>> = Vec::new();
    let mut i: usize = 0;
    let total: usize = data.len();
    proof {
        assert(views(out@) + words_from(data@, 0) =~= words(data@));
    }
    loop
        invariant
            i <= total,
            total == data@.len(),
            words(data@) == views(out@) + words_from(data@, i as int),
        decreases total - i,
    {
        let from: usize = skip_blanks(data, i);
        if from >= total {
            proof {
                assert(words_from(data@, i as int) =~= Seq::empty());
                assert(views(out@) =~= words(data@));
            }
            return out;
        }
        proof {
            lemma_after_blanks(data@, i as int);
        }
        let to: usize = end_of_word(data, from);
        let word = crate::bytes::to_vec(vstd::slice::slice_subrange(data, from, to));
        let ghost before = views(out@);
        out.push(word);
        proof {
            assert(views(out@) =~= before.push(word@));
            assert(words(data@) =~= views(out@) + words_from(data@, to as int));
        }
        i = to;
    }
}

proof fn lemma_after_blanks(s: Seq<u8>, i: int)
    requires
        0 <= i,
    ensures
        blanks_end(s, i) < s.len() ==> !is_blank(s[blanks_end(s, i)]),
        blanks_end(s, i) >= i,
    decreases s.len() - i,
{
    if i < s.len() && is_blank(s[i]) {
        lemma_after_blanks(s, i + 1);
    }
}

/// The unsigned number that a word spells, with an optional leading `+`,
/// where it is at most `limit`.
pub open spec fn word_value(w: Seq<u8>, limit: int) -> Option<int> {
    let body = if w.len() > 0 && w[0] == 0x2B {
        w.skip(1)
    } else {
        w
    };
    if body.len() > 0 && all_digits(body) && digits_value(body) <= limit {
        Some(digits_value(body) as int)
    } else {
        None
    }
}

/// Reads the unsigned number that a word spells.
pub fn parse_word(w: &[u8], limit: u64) -> (r: Option<u64>)
    ensures
        match r {
            Some(v) => word_value(w@, limit as int) == Some(v as int),
            None => word_value(w@, limit as int) is None,
        },
{
    let from: usize = if w.len() > 0 && w[0] == 0x2B {
        1
    } else {
        0
    };
    let ghost body = if w@.len() > 0 && w@[0] == 0x2B {
        w@.skip(1)
    } else {
        w@
    };
    proof {
        assert(w@.subrange(from as int, w@.len() as int) =~= body);
    }
    let end: usize = end_of_digits(w, from);
    if from == w.len() || end != w.len() {
        proof {
            if from < w@.len() {
                lemma_digits_end(w@, from as int);
                assert(body[end - from] == w@[end as int]);
            }
        }
        return None;
    }
    proof {
        assert forall|k: int| 0 <= k < body.len() implies is_digit(#[trigger] body[k]) by {
            assert(body[k] == w@[from + k]);
        }
    }
    parse_digits(w, from, end, limit)
}

/// The signed number that a word spells, with an optional sign, where it
/// fits 64 bits.
pub open spec fn signed_word_value(w: Seq<u8>) -> Option<int> {
    if w.len() > 0 && w[0] == 0x2D {
        if w.len() > 1 && all_digits(w.skip(1)) && digits_value(w.skip(1))
            <= 0x8000_0000_0000_0000 {
            Some(-(digits_value(w.skip(1)) as int))
        } else {
            None
        }
    } else {
        word_value(w, 0x7FFF_FFFF_FFFF_FFFF)
    }
}

/// Reads the signed number that a word spells.
pub fn parse_signed_word(w: &[u8]) -> (r: Option<i64>)
    ensures
        match r {
            Some(v) => signed_word_value(w@) == Some(v as int),
            None => signed_word_value(w@) is None,
        },
{
    if w.len() > 0 && w[0] == 0x2D {
        let end: usize = end_of_digits(w, 1);
        proof {
            assert(w@.subrange(1, w@.len() as int) =~= w@.skip(1));
        }
        if w.len() == 1 || end != w.len() {
            proof {
                if w@.len() > 1 {
                    lemma_digits_end(w@, 1);
                    assert(w@.skip(1)[end - 1] == w@[end as int]);
                }
            }
            return None;
        }
        proof {
            assert forall|k: int| 0 <= k < w@.skip(1).len() implies is_digit(
                #[trigger] w@.skip(1)[k],
            ) by {
                assert(w@.skip(1)[k] == w@[1 + k]);
            }
        }
        match parse_digits(w, 1, end, 0x8000_0000_0000_0000) {
            Some(v) => if v == 0x8000_0000_0000_0000 {
                Some(i64::MIN)
            } else {
                Some(-(v as i64))
            },
            None => None,
        }
    } else {
        match parse_word(w, 0x7FFF_FFFF_FFFF_FFFF) {
            Some(v) => Some(v as i64),
            None => None,
        }
    }
}

} // verus!
