//! Character-level helpers on string slices: character sets, trimming and
//! searching, each specified over the slice's sequence of characters.

use vstd::prelude::*;
use vstd::string::*;
use vstd::utf8::{
    char_is_scalar, encode_scalar, encode_utf8, encode_utf8_decode_utf8,
    encode_utf8_first_scalar, encode_utf8_valid_utf8, is_char_boundary, pop_first_scalar,
};

verus! {

/// Whether `c` carries the Unicode `White_Space` property.
pub open spec fn is_space(c: char) -> bool {
    let u = c as u32;
    ||| 0x09 <= u <= 0x0d
    ||| u == 0x20
    ||| u == 0x85
    ||| u == 0xa0
    ||| u == 0x1680
    ||| 0x2000 <= u <= 0x200a
    ||| u == 0x2028
    ||| u == 0x2029
    ||| u == 0x202f
    ||| u == 0x205f
    ||| u == 0x3000
}

/// Executable form of [`is_space`].
pub fn is_whitespace(c: char) -> (r: bool)
    ensures
        r == is_space(c),
{
    let u: u32 = c as u32;
    (0x09 <= u && u <= 0x0d) || u == 0x20 || u == 0x85 || u == 0xa0 || u == 0x1680 || (0x2000 <= u
        && u <= 0x200a) || u == 0x2028 || u == 0x2029 || u == 0x202f || u == 0x205f || u == 0x3000
}

/// A set of characters to strip from the ends of a slice.
pub enum CharSet<'a> {
    /// Every character with the `White_Space` property.
    Whitespace,
    /// The characters that occur in the given slice.
    Listed(&'a str),
    /// Every character but the given one.
    Except(char),
    /// Every character without the `White_Space` property.
    Visible,
}

impl<'a> CharSet<'a> {
    /// Membership of `c` in the set.
    pub open spec fn has(self, c: char) -> bool {
        match self {
            CharSet::Whitespace => is_space(c),
            CharSet::Listed(l) => l@.contains(c),
            CharSet::Except(x) => c != x,
            CharSet::Visible => !is_space(c),
        }
    }

    /// Executable membership test.
    pub fn contains(&self, c: char) -> (r: bool)
        ensures
            r == self.has(c),
    {
        match self {
            CharSet::Whitespace => is_whitespace(c),
            CharSet::Listed(l) => {
                for x in it: l.chars()
                    invariant
                        *self == CharSet::Listed(*l),
                        it.seq() == l@,
                        forall|j: int| 0 <= j < it.index() ==> l@[j] != c,
                {
                    if x == c {
                        assert(l@[it.index() as int] == c);
                        return true;
                    }
                }
                false
            },
            CharSet::Except(x) => c != *x,
            CharSet::Visible => !is_whitespace(c),
        }
    }
}

/// Number of leading characters of `s` that belong to `set`.
pub open spec fn lead_len(s: Seq<char>, set: CharSet) -> nat
    decreases s.len(),
{
    if s.len() > 0 && set.has(s[0]) {
        1 + lead_len(s.drop_first(), set)
    } else {
        0
    }
}

/// Number of trailing characters of `s` that belong to `set`.
pub open spec fn trail_len(s: Seq<char>, set: CharSet) -> nat
    decreases s.len(),
{
    if s.len() > 0 && set.has(s.last()) {
        1 + trail_len(s.drop_last(), set)
    } else {
        0
    }
}

/// Index of the first `c` in `s`; the length of `s` if it holds none.
pub open spec fn first_index(s: Seq<char>, c: char) -> int {
    lead_len(s, CharSet::Except(c)) as int
}

/// `s` without its leading characters from `set`.
pub open spec fn strip_start(s: Seq<char>, set: CharSet) -> Seq<char> {
    s.skip(lead_len(s, set) as int)
}

/// `s` without its trailing characters from `set`.
pub open spec fn strip_end(s: Seq<char>, set: CharSet) -> Seq<char> {
    s.take(s.len() - trail_len(s, set))
}

/// `s` without its leading and trailing characters from `set`.
pub open spec fn strip(s: Seq<char>, set: CharSet) -> Seq<char> {
    strip_end(strip_start(s, set), set)
}

/// `s` without leading and trailing white space.
pub open spec fn trimmed(s: Seq<char>) -> Seq<char> {
    strip(s, CharSet::Whitespace)
}

/// The leading run of `set` in `s` ends at `i`: everything before `i` is in
/// the set, and `i` is the end of `s` or holds a character outside it.
pub proof fn lemma_lead_len(s: Seq<char>, set: CharSet, i: int)
    requires
        0 <= i <= s.len(),
        forall|j: int| 0 <= j < i ==> set.has(#[trigger] s[j]),
        i == s.len() || !set.has(s[i]),
    ensures
        lead_len(s, set) == i,
    decreases s.len(),
{
    if i > 0 {
        let t = s.drop_first();
        assert forall|j: int| 0 <= j < i - 1 implies set.has(#[trigger] t[j]) by {
            assert(t[j] == s[j + 1]);
        }
        lemma_lead_len(t, set, i - 1);
    }
}

/// The trailing run of `set` in `s` starts at `e`.
pub proof fn lemma_trail_len(s: Seq<char>, set: CharSet, e: int)
    requires
        0 <= e <= s.len(),
        forall|j: int| e <= j < s.len() ==> set.has(#[trigger] s[j]),
        e == 0 || !set.has(s[e - 1]),
    ensures
        trail_len(s, set) == s.len() - e,
    decreases s.len(),
{
    if e < s.len() {
        let t = s.drop_last();
        assert forall|j: int| e <= j < t.len() implies set.has(#[trigger] t[j]) by {
            assert(t[j] == s[j]);
        }
        lemma_trail_len(t, set, e);
    }
}

/// Both bounds of the kept middle of `s`: the length of its leading run of
/// `set`, the end of its last character outside `set` (0 if there is none),
/// and its length in characters.
fn kept_span(s: &str, set: &CharSet) -> (r: (usize, usize, usize))
    ensures
        r.2 == s@.len(),
        r.0 == lead_len(s@, *set),
        r.1 == s@.len() - trail_len(s@, *set),
        r.0 < r.2 ==> r.0 < r.1,
        r.0 == r.2 ==> r.1 == 0,
        r.0 <= r.2,
        r.1 <= r.2,
{
    let bound: usize = byte_len(s);
    let mut lead: usize = 0;
    let mut seen: bool = false;
    let mut keep_end: usize = 0;
    let mut i: usize = 0;
    for c in it: s.chars()
        invariant
            it.seq() == s@,
            s@.len() <= bound,
            i == it.index(),
            !seen ==> lead == i && keep_end == 0 && forall|j: int|
                0 <= j < i ==> set.has(#[trigger] s@[j]),
            seen ==> lead < keep_end <= i && !set.has(s@[lead as int]) && !set.has(
                s@[keep_end - 1],
            ) && (forall|j: int| 0 <= j < lead ==> set.has(#[trigger] s@[j])) && (forall|j: int|
                keep_end <= j < i ==> set.has(#[trigger] s@[j])),
    {
        if set.contains(c) {
            if !seen {
                lead = lead + 1;
            }
        } else {
            seen = true;
            keep_end = i + 1;
        }
        i = i + 1;
    }
    proof {
        lemma_lead_len(s@, *set, lead as int);
        lemma_trail_len(s@, *set, keep_end as int);
    }
    (lead, keep_end, i)
}

/// The run of `set` at the front of `s` stays within `s` and is followed, if
/// by anything, by a character outside `set`.
pub proof fn lemma_lead_first(s: Seq<char>, set: CharSet)
    ensures
        lead_len(s, set) <= s.len(),
        lead_len(s, set) < s.len() ==> !set.has(s[lead_len(s, set) as int]),
        forall|j: int| 0 <= j < lead_len(s, set) ==> set.has(#[trigger] s[j]),
    decreases s.len(),
{
    if s.len() > 0 && set.has(s[0]) {
        let t = s.drop_first();
        lemma_lead_first(t, set);
        assert forall|j: int| 0 <= j < lead_len(s, set) implies set.has(#[trigger] s[j]) by {
            if j > 0 {
                assert(t[j - 1] == s[j]);
            }
        }
    }
}

/// Position, in characters, of the first `c` in `s`. The text is read up
/// to that position only.
pub fn find_char(s: &str, c: char) -> (r: Option<usize>)
    ensures
        match r {
            Some(i) => i == first_index(s@, c) && i < s@.len() && s@[i as int] == c,
            None => first_index(s@, c) == s@.len(),
        },
{
    let bound: usize = byte_len(s);
    let mut i: usize = 0;
    for x in it: s.chars()
        invariant
            it.seq() == s@,
            s@.len() <= bound,
            i == it.index(),
            forall|j: int| 0 <= j < i ==> s@[j] != c,
    {
        if x == c {
            proof {
                lemma_lead_len(s@, CharSet::Except(c), i as int);
            }
            return Some(i);
        }
        i = i + 1;
    }
    proof {
        lemma_lead_len(s@, CharSet::Except(c), i as int);
    }
    None
}

/// Whether `s` starts with the character `c`.
pub fn starts_with_char(s: &str, c: char) -> (r: bool)
    ensures
        r == (s@.len() > 0 && s@[0] == c),
{
    for x in it: s.chars()
        invariant
            it.seq() == s@,
            it.index() == 0,
    {
        return x == c;
    }
    false
}

/// Strips the characters of `set` from the front of `s`. The text is read
/// up to its first character outside `set` only.
pub fn trim_start_by<'a>(s: &'a str, set: &CharSet) -> (r: &'a str)
    ensures
        r@ == strip_start(s@, *set),
{
    let bound: usize = byte_len(s);
    let mut lead: usize = 0;
    for c in it: s.chars()
        invariant
            it.seq() == s@,
            s@.len() <= bound,
            lead == it.index(),
            forall|j: int| 0 <= j < lead ==> set.has(#[trigger] s@[j]),
    {
        if !set.contains(c) {
            proof {
                lemma_lead_len(s@, *set, lead as int);
            }
            return split_chars(s, lead).1;
        }
        lead = lead + 1;
    }
    proof {
        lemma_lead_len(s@, *set, lead as int);
    }
    split_chars(s, lead).1
}

/// Strips the characters of `set` from the back of `s`.
pub fn trim_end_by<'a>(s: &'a str, set: &CharSet) -> (r: &'a str)
    ensures
        r@ == strip_end(s@, *set),
{
    let (_, keep_end, _) = kept_span(s, set);
    split_chars(s, keep_end).0
}

/// The run of characters of `set` that `s` ends with.
pub fn trailing_run<'a>(s: &'a str, set: &CharSet) -> (r: &'a str)
    ensures
        r@ == s@.skip(s@.len() - trail_len(s@, *set)),
{
    let (_, keep_end, _) = kept_span(s, set);
    split_chars(s, keep_end).1
}

/// Strips the characters of `set` from both ends of `s`.
pub fn trim_by<'a>(s: &'a str, set: &CharSet) -> (r: &'a str)
    ensures
        r@ == strip(s@, *set),
{
    let (lead, keep_end, len) = kept_span(s, set);
    if lead == len {
        split_chars(s, len).1
    } else {
        proof {
            let t = s@.skip(lead as int);
            assert forall|j: int| keep_end - lead <= j < t.len() implies set.has(
                #[trigger] t[j],
            ) by {
                assert(t[j] == s@[j + lead]);
                if !set.has(s@[j + lead]) {
                    lemma_trail_bound(s@, *set, j + lead);
                }
            }
            lemma_trail_last(s@, *set);
            assert(t[keep_end - lead - 1] == s@[keep_end - 1]);
            lemma_trail_len(t, *set, keep_end - lead);
            assert(t.take(keep_end - lead) == s@.subrange(lead as int, keep_end as int));
        }
        slice_chars(s, lead, keep_end)
    }
}

/// Strips white space from both ends of `s`.
pub fn trim(s: &str) -> (r: &str)
    ensures
        r@ == trimmed(s@),
{
    trim_by(s, &CharSet::Whitespace)
}

/// Strips white space from the front of `s`.
pub fn trim_start(s: &str) -> (r: &str)
    ensures
        r@ == strip_start(s@, CharSet::Whitespace),
{
    trim_start_by(s, &CharSet::Whitespace)
}

/// A character outside `set` at `k` bounds the trailing run of `set`.
pub proof fn lemma_trail_bound(s: Seq<char>, set: CharSet, k: int)
    requires
        0 <= k < s.len(),
        !set.has(s[k]),
    ensures
        trail_len(s, set) <= s.len() - k - 1,
    decreases s.len(),
{
    if k < s.len() - 1 && set.has(s.last()) {
        lemma_trail_bound(s.drop_last(), set, k);
    }
}

/// The character just before the trailing run of `set` is outside `set`,
/// and every character of the run is inside.
pub proof fn lemma_trail_last(s: Seq<char>, set: CharSet)
    ensures
        trail_len(s, set) <= s.len(),
        trail_len(s, set) < s.len() ==> !set.has(s[s.len() - trail_len(s, set) - 1]),
        forall|j: int| s.len() - trail_len(s, set) <= j < s.len() ==> set.has(#[trigger] s[j]),
    decreases s.len(),
{
    if s.len() > 0 && set.has(s.last()) {
        let t = s.drop_last();
        lemma_trail_last(t, set);
        assert forall|j: int| s.len() - trail_len(s, set) <= j < s.len() implies set.has(
            #[trigger] s[j],
        ) by {
            if j < t.len() {
                assert(t[j] == s[j]);
            }
        }
    }
}

/// What is left after stripping `set` from both ends neither starts nor
/// ends with a character of `set`.
pub proof fn lemma_strip_ends(s: Seq<char>, set: CharSet)
    ensures
        strip(s, set).len() > 0 ==> !set.has(strip(s, set).first()) && !set.has(
            strip(s, set).last(),
        ),
{
    let t = strip_start(s, set);
    lemma_lead_first(s, set);
    lemma_trail_last(t, set);
    if strip(s, set).len() > 0 {
        assert(t.len() > 0);
        assert(t[0] == s[lead_len(s, set) as int]);
        assert(trail_len(t, set) < t.len());
    }
}

/// The encoding of a text is the encoding of its first part followed by
/// that of its second part.
proof fn lemma_encode_concat(a: Seq<char>, b: Seq<char>)
    ensures
        encode_utf8(a + b) == encode_utf8(a) + encode_utf8(b),
    decreases a.len(),
{
    if a.len() == 0 {
        assert(a + b == b);
    } else {
        assert((a + b).drop_first() == a.drop_first() + b);
        lemma_encode_concat(a.drop_first(), b);
    }
}

/// Where the encoding of the first part of a text ends, a character of
/// the text ends.
proof fn lemma_boundary_after(a: Seq<char>, b: Seq<char>)
    ensures
        is_char_boundary(encode_utf8(a + b), encode_utf8(a).len() as int),
    decreases a.len(),
{
    let bytes = encode_utf8(a + b);
    encode_utf8_valid_utf8(a + b);
    if a.len() > 0 {
        encode_utf8_first_scalar(a + b);
        assert((a + b).drop_first() == a.drop_first() + b);
        assert(pop_first_scalar(bytes) =~= encode_utf8((a + b).drop_first()));
        lemma_boundary_after(a.drop_first(), b);
        lemma_encode_concat(a, b);
        char_is_scalar(a[0]);
    }
}

/// A text has no more characters than its encoding has bytes.
proof fn lemma_encoded_len(s: Seq<char>)
    ensures
        s.len() <= encode_utf8(s).len(),
    decreases s.len(),
{
    if s.len() > 0 {
        char_is_scalar(s[0]);
        lemma_encoded_len(s.drop_first());
    }
}

/// The length of `s` in bytes, which bounds its length in characters.
pub fn byte_len(s: &str) -> (r: usize)
    ensures
        r == encode_utf8(s@).len(),
        s@.len() <= r,
{
    proof {
        lemma_encoded_len(s@);
    }
    s.as_bytes().len()
}

/// Number of bytes that encode `c`.
fn width(c: char) -> (r: usize)
    ensures
        r == encode_scalar(c as u32).len(),
        1 <= r <= 4,
{
    proof {
        char_is_scalar(c);
    }
    let u: u32 = c as u32;
    if u < 0x80 {
        1
    } else if u < 0x800 {
        2
    } else if u < 0x10000 {
        3
    } else {
        4
    }
}

/// Cuts `s` at the byte `at`, where its first `k` characters end.
fn cut(s: &str, at: usize, Ghost(k): Ghost<int>) -> (r: (&str, &str))
    requires
        0 <= k <= s@.len(),
        at == encode_utf8(s@.take(k)).len(),
    ensures
        r.0@ == s@.take(k),
        r.1@ == s@.skip(k),
{
    proof {
        assert(s@.take(k) + s@.skip(k) == s@);
        lemma_encode_concat(s@.take(k), s@.skip(k));
        lemma_boundary_after(s@.take(k), s@.skip(k));
    }
    let (head, tail) = s.split_at(at);
    proof {
        let bytes = encode_utf8(s@);
        assert(bytes.subrange(0, at as int) == encode_utf8(s@.take(k)));
        assert(bytes.subrange(at as int, bytes.len() as int) == encode_utf8(s@.skip(k)));
        encode_utf8_decode_utf8(head@);
        encode_utf8_decode_utf8(tail@);
        encode_utf8_decode_utf8(s@.take(k));
        encode_utf8_decode_utf8(s@.skip(k));
    }
    (head, tail)
}

/// The part of `s` before its ending `tail`, which starts at the
/// character `k` of `s`. No character is read.
pub(crate) fn head_of<'a>(s: &'a str, tail: &str, Ghost(k): Ghost<int>) -> (r: &'a str)
    requires
        0 <= k <= s@.len(),
        s@.skip(k) == tail@,
    ensures
        r@ == s@.take(k),
{
    proof {
        assert(s@.take(k) + s@.skip(k) == s@);
        lemma_encode_concat(s@.take(k), s@.skip(k));
    }
    cut(s, byte_len(s) - byte_len(tail), Ghost(k)).0
}

/// Splits `s` after its first `k` characters, or at its end where it has
/// fewer. Only the characters before the split are read.
pub fn split_chars(s: &str, k: usize) -> (r: (&str, &str))
    ensures
        k <= s@.len() ==> r.0@ == s@.take(k as int) && r.1@ == s@.skip(k as int),
        k > s@.len() ==> r.0@ == s@ && r.1@.len() == 0,
{
    let total: usize = byte_len(s);
    let mut at: usize = 0;
    let mut i: usize = 0;
    assert(s@.take(0) == Seq::<char>::empty());
    for c in it: s.chars()
        invariant
            it.seq() == s@,
            i == it.index(),
            i <= k,
            total == encode_utf8(s@).len(),
            at == encode_utf8(s@.take(i as int)).len(),
    {
        if i == k {
            return cut(s, at, Ghost(i as int));
        }
        proof {
            let head = s@.take(i as int);
            assert(s@.take(i + 1) == head + seq![c]);
            lemma_encode_concat(head, seq![c]);
            assert(encode_utf8(seq![c]) == encode_scalar(c as u32)) by {
                reveal_with_fuel(encode_utf8, 2);
                assert(seq![c].drop_first() == Seq::<char>::empty());
            }
            assert(s@.take(i + 1) + s@.skip(i + 1) == s@);
            lemma_encode_concat(s@.take(i + 1), s@.skip(i + 1));
        }
        at = at + width(c);
        i = i + 1;
    }
    assert(s@.take(i as int) == s@);
    cut(s, at, Ghost(i as int))
}

/// The text made of `s` from its character `from` up to its character
/// `to`. Only the characters before `to` are read.
pub(crate) fn slice_chars(s: &str, from: usize, to: usize) -> (r: &str)
    requires
        from <= to <= s@.len(),
    ensures
        r@ == s@.subrange(from as int, to as int),
{
    let (head, _) = split_chars(s, to);
    let (_, r) = split_chars(head, from);
    assert(s@.take(to as int).skip(from as int) == s@.subrange(from as int, to as int));
    r
}

/// Whether two slices hold the same text.
pub fn same_text(a: &str, b: &str) -> (r: bool)
    ensures
        r == (a@ == b@),
{
    let x = a.as_bytes();
    let y = b.as_bytes();
    proof {
        encode_utf8_decode_utf8(a@);
        encode_utf8_decode_utf8(b@);
    }
    if x.len() != y.len() {
        return false;
    }
    let mut i: usize = 0;
    while i < x.len()
        invariant
            i <= x@.len(),
            x@.len() == y@.len(),
            x@ == a.spec_bytes(),
            y@ == b.spec_bytes(),
            forall|j: int| 0 <= j < i ==> x@[j] == y@[j],
        decreases x@.len() - i,
    {
        if x[i] != y[i] {
            return false;
        }
        i = i + 1;
    }
    assert(x@ =~= y@);
    true
}

/// The characters of `s`, one by one.
pub fn to_chars(s: &str) -> (r: Vec<char>)
    ensures
        r@ == s@,
{
    let mut out: Vec<char> = Vec::new();
    for c in it: s.chars()
        invariant
            it.seq() == s@,
            out@ == s@.take(it.index() as int),
    {
        out.push(c);
        assert(s@.take(it.index() + 1) == s@.take(it.index() as int).push(c));
    }
    assert(s@.take(s@.len() as int) == s@);
    out
}

/// The slices of `v`, each as its sequence of characters.
pub open spec fn slice_views(v: Seq<&str>) -> Seq<Seq<char>> {
    Seq::new(v.len(), |i: int| v[i]@)
}

/// The strings of `v`, each as its sequence of characters.
pub open spec fn texts(v: Seq<String>) -> Seq<Seq<char>> {
    Seq::new(v.len(), |i: int| v[i]@)
}

/// Index of the first occurrence of `pat` in `s`; the length of `s` if it
/// does not occur. The empty pattern occurs nowhere.
pub open spec fn sub_index(s: Seq<char>, pat: Seq<char>) -> int
    decreases s.len(),
{
    if pat.len() == 0 || s.len() < pat.len() {
        s.len() as int
    } else if s.take(pat.len() as int) == pat {
        0
    } else {
        1 + sub_index(s.drop_first(), pat)
    }
}

/// Where [`sub_index`] points: at an occurrence of `pat` that fits in `s`
/// and has none before it, or at the end of `s` if `pat` occurs nowhere.
pub proof fn lemma_sub_index(s: Seq<char>, pat: Seq<char>)
    ensures
        0 <= sub_index(s, pat) <= s.len(),
        sub_index(s, pat) < s.len() ==> pat.len() > 0 && sub_index(s, pat) + pat.len() <= s.len()
            && s.subrange(sub_index(s, pat), sub_index(s, pat) + pat.len()) == pat,
        forall|j: int|
            0 <= j < sub_index(s, pat) && j + pat.len() <= s.len() ==> #[trigger] s.subrange(
                j,
                j + pat.len(),
            ) != pat || pat.len() == 0,
    decreases s.len(),
{
    if pat.len() == 0 || s.len() < pat.len() {
    } else if s.take(pat.len() as int) == pat {
        assert(s.subrange(0, pat.len() as int) == s.take(pat.len() as int));
    } else {
        let t = s.drop_first();
        lemma_sub_index(t, pat);
        let i = sub_index(t, pat);
        if i < t.len() {
            assert(t.subrange(i, i + pat.len()) == s.subrange(i + 1, i + 1 + pat.len()));
        }
        assert forall|j: int|
            0 <= j < sub_index(s, pat) && j + pat.len() <= s.len() implies #[trigger] s.subrange(
            j,
            j + pat.len(),
        ) != pat by {
            if j == 0 {
                assert(s.subrange(0, pat.len() as int) == s.take(pat.len() as int));
            } else {
                assert(t.subrange(j - 1, j - 1 + pat.len()) == s.subrange(j, j + pat.len()));
            }
        }
    }
}

/// The parts of `s` between the occurrences of `pat`, found from left to
/// right without overlap.
pub open spec fn split_on(s: Seq<char>, pat: Seq<char>) -> Seq<Seq<char>>
    decreases s.len(),
{
    let i = sub_index(s, pat);
    if i >= s.len() {
        seq![s]
    } else {
        proof {
            lemma_sub_index(s, pat);
        }
        seq![s.take(i)] + split_on(s.skip(i + pat.len()), pat)
    }
}

/// Whether `pat` stands in `chars` at `at`.
pub(crate) fn occurs_at(chars: &Vec<char>, at: usize, pat: &Vec<char>) -> (r: bool)
    requires
        at + pat@.len() <= chars@.len(),
    ensures
        r == (chars@.subrange(at as int, at + pat@.len()) == pat@),
{
    let len: usize = chars.len();
    let mut k: usize = 0;
    while k < pat.len()
        invariant
            k <= pat@.len(),
            len == chars@.len(),
            at + pat@.len() <= chars@.len(),
            forall|j: int| 0 <= j < k ==> chars@[at + j] == pat@[j],
        decreases pat@.len() - k,
    {
        if chars[at + k] != pat[k] {
            assert(chars@.subrange(at as int, at + pat@.len())[k as int] != pat@[k as int]);
            return false;
        }
        k = k + 1;
    }
    assert(chars@.subrange(at as int, at + pat@.len()) =~= pat@);
    true
}

/// Position of the first occurrence of `pat` in `chars` at or after `from`.
pub(crate) fn find_sub(chars: &Vec<char>, from: usize, pat: &Vec<char>) -> (r: usize)
    requires
        from <= chars@.len(),
    ensures
        r == from + sub_index(chars@.skip(from as int), pat@),
        from <= r <= chars@.len(),
        r < chars@.len() ==> r + pat@.len() <= chars@.len() && pat@.len() > 0,
{
    let len: usize = chars.len();
    let m: usize = pat.len();
    if m == 0 {
        return len;
    }
    let mut i: usize = from;
    while i < len && m <= len - i
        invariant
            from <= i <= len,
            len == chars@.len(),
            m == pat@.len(),
            m > 0,
            sub_index(chars@.skip(from as int), pat@) == (i - from) + sub_index(
                chars@.skip(i as int),
                pat@,
            ),
        decreases len - i,
    {
        assert(chars@.skip(i as int).take(m as int) == chars@.subrange(i as int, i + m));
        if occurs_at(chars, i, pat) {
            return i;
        }
        assert(chars@.skip(i as int).drop_first() == chars@.skip(i + 1));
        i = i + 1;
    }
    len
}

/// Splits `s` at every occurrence of `pat`.
pub fn split_text<'a>(s: &'a str, pat: &str) -> (r: Vec<&'a str>)
    ensures
        slice_views(r@) == split_on(s@, pat@),
{
    let chars = to_chars(s);
    let needle = to_chars(pat);
    let len: usize = chars.len();
    let mut out: Vec<&str> = Vec::new();
    let mut pos: usize = 0;
    let mut rest: &str = s;
    assert(chars@.skip(0) == chars@);
    loop
        invariant_except_break
            pos <= len,
            len == chars@.len(),
            chars@ == s@,
            needle@ == pat@,
            rest@ == chars@.skip(pos as int),
            slice_views(out@) + split_on(rest@, pat@) == split_on(s@, pat@),
        ensures
            slice_views(out@) == split_on(s@, pat@),
        decreases len - pos,
    {
        let ghost before = slice_views(out@);
        let ghost tail = rest@;
        let i: usize = find_sub(&chars, pos, &needle);
        if i >= len {
            out.push(rest);
            assert(slice_views(out@) == before + seq![tail]);
            break ;
        }
        let (piece, more) = split_chars(rest, i - pos);
        out.push(piece);
        rest = split_chars(more, needle.len()).1;
        assert(tail.skip(i - pos).skip(needle@.len() as int) == chars@.skip(i + needle@.len()));
        assert(tail.skip(i - pos + needle@.len()) == chars@.skip(i + needle@.len()));
        assert(slice_views(out@) == before + seq![tail.take(i - pos)]);
        pos = i + needle.len();
    }
    out
}

} // verus!
