//! Brace-balanced groups: the content of the first `{...}` group of a text
//! and what follows it. Nesting is counted over `{` and `}` alone; a
//! backslash escapes nothing.

use crate::text::{
    byte_len, first_index, lemma_lead_first, lemma_lead_len, split_chars, CharSet,
};
use vstd::prelude::*;
use vstd::string::*;

verus! {

/// Index of the `}` that closes a group, read from `from` on with `depth`
/// braces still open; the length of `s` if the group is never closed.
pub open spec fn close_index(s: Seq<char>, from: int, depth: nat) -> int
    decreases s.len() - from,
{
    if from < 0 || from >= s.len() {
        s.len() as int
    } else if s[from] == '{' {
        close_index(s, from + 1, depth + 1)
    } else if s[from] == '}' {
        if depth <= 1 {
            from
        } else {
            close_index(s, from + 1, (depth - 1) as nat)
        }
    } else {
        close_index(s, from + 1, depth)
    }
}

/// Index of the `}` that matches the first `{` of `s`; the length of `s` if
/// there is no `{` or it is never closed.
pub open spec fn group_end(s: Seq<char>) -> int {
    close_index(s, first_index(s, '{') + 1, 1)
}

/// What stands between the first `{` of `s` and its matching `}`: up to the
/// end of `s` if the group is never closed, nothing if `s` holds no `{`.
pub open spec fn brace_content(s: Seq<char>) -> Seq<char> {
    if first_index(s, '{') < s.len() {
        s.subrange(first_index(s, '{') + 1, group_end(s))
    } else {
        Seq::empty()
    }
}

/// What follows the `}` that matches the first `{` of `s`: nothing if there
/// is no such group or it is never closed.
pub open spec fn brace_rest(s: Seq<char>) -> Seq<char> {
    if group_end(s) < s.len() {
        s.subrange(group_end(s) + 1, s.len() as int)
    } else {
        Seq::empty()
    }
}

/// The closing index lies at or after the point the scan starts from, and
/// within `s`.
pub proof fn lemma_close_index_bounds(s: Seq<char>, from: int, depth: nat)
    requires
        0 <= from <= s.len(),
    ensures
        from <= close_index(s, from, depth) <= s.len(),
        close_index(s, from, depth) < s.len() ==> s[close_index(s, from, depth)] == '}',
    decreases s.len() - from,
{
    if from < s.len() {
        if s[from] == '{' {
            lemma_close_index_bounds(s, from + 1, depth + 1);
        } else if s[from] == '}' {
            if depth > 1 {
                lemma_close_index_bounds(s, from + 1, (depth - 1) as nat);
            }
        } else {
            lemma_close_index_bounds(s, from + 1, depth);
        }
    }
}

/// The number of `{` in `s` less the number of `}`.
pub open spec fn depth_of(s: Seq<char>) -> int
    decreases s.len(),
{
    if s.len() == 0 {
        0
    } else {
        depth_of(s.drop_last()) + if s.last() == '{' {
            1int
        } else if s.last() == '}' {
            -1int
        } else {
            0int
        }
    }
}

proof fn lemma_depth_concat(a: Seq<char>, b: Seq<char>)
    ensures
        depth_of(a + b) == depth_of(a) + depth_of(b),
    decreases b.len(),
{
    if b.len() == 0 {
        assert(a + b == a);
    } else {
        assert((a + b).drop_last() == a + b.drop_last());
        lemma_depth_concat(a, b.drop_last());
    }
}

proof fn lemma_close_is_balanced(s: Seq<char>, from: int, depth: nat)
    requires
        0 <= from <= s.len(),
        depth >= 1,
    ensures
        forall|k: int|
            from <= k <= close_index(s, from, depth) ==> depth + depth_of(
                #[trigger] s.subrange(from, k),
            ) >= 1,
        close_index(s, from, depth) < s.len() ==> depth + depth_of(
            s.subrange(from, close_index(s, from, depth) + 1),
        ) == 0,
    decreases s.len() - from,
{
    let end = close_index(s, from, depth);
    lemma_close_index_bounds(s, from, depth);
    assert(s.subrange(from, from) == Seq::<char>::empty());
    if from < s.len() {
        let head = seq![s[from]];
        assert(depth_of(head) == if s[from] == '{' {
            1int
        } else if s[from] == '}' {
            -1int
        } else {
            0int
        }) by {
            reveal_with_fuel(depth_of, 2);
            assert(head.drop_last() == Seq::<char>::empty());
        }
        if s[from] == '}' && depth <= 1 {
            assert(s.subrange(from, from + 1) == head);
        } else {
            let next: nat = if s[from] == '{' {
                depth + 1
            } else if s[from] == '}' {
                (depth - 1) as nat
            } else {
                depth
            };
            lemma_close_is_balanced(s, from + 1, next);
            assert forall|k: int| from <= k <= end implies depth + depth_of(
                #[trigger] s.subrange(from, k),
            ) >= 1 by {
                if k > from {
                    assert(s.subrange(from, k) == head + s.subrange(from + 1, k));
                    lemma_depth_concat(head, s.subrange(from + 1, k));
                }
            }
            if end < s.len() {
                assert(s.subrange(from, end + 1) == head + s.subrange(from + 1, end + 1));
                lemma_depth_concat(head, s.subrange(from + 1, end + 1));
            }
        }
    }
}

/// The group that [`group_end`] delimits is the balanced one: from the
/// first `{` up to any point before its end more braces are opened than
/// closed, and at its `}` as many are closed as were opened.
pub proof fn lemma_group_is_balanced(s: Seq<char>)
    requires
        first_index(s, '{') < s.len(),
    ensures
        s[first_index(s, '{')] == '{',
        forall|k: int|
            first_index(s, '{') < k <= group_end(s) ==> depth_of(
                #[trigger] s.subrange(first_index(s, '{'), k),
            ) >= 1,
        group_end(s) < s.len() ==> s[group_end(s)] == '}' && depth_of(
            s.subrange(first_index(s, '{'), group_end(s) + 1),
        ) == 0,
{
    let open = first_index(s, '{');
    lemma_lead_first(s, CharSet::Except('{'));
    lemma_close_is_balanced(s, open + 1, 1);
    lemma_close_index_bounds(s, open + 1, 1);
    let head = seq![s[open]];
    assert(depth_of(head) == 1) by {
        reveal_with_fuel(depth_of, 2);
        assert(head.drop_last() == Seq::<char>::empty());
    }
    assert forall|k: int| open < k <= group_end(s) implies depth_of(
        #[trigger] s.subrange(open, k),
    ) >= 1 by {
        assert(s.subrange(open, k) == head + s.subrange(open + 1, k));
        lemma_depth_concat(head, s.subrange(open + 1, k));
    }
    if group_end(s) < s.len() {
        assert(s.subrange(open, group_end(s) + 1) == head + s.subrange(
            open + 1,
            group_end(s) + 1,
        ));
        lemma_depth_concat(head, s.subrange(open + 1, group_end(s) + 1));
    }
}

/// A brace group's content and the text after it are both parts of `s`, and
/// the text after it is shorter than `s` unless `s` is empty.
pub proof fn lemma_brace_parts_len(s: Seq<char>)
    ensures
        0 <= group_end(s) <= s.len(),
        first_index(s, '{') < s.len() ==> first_index(s, '{') < group_end(s),
        brace_content(s).len() <= s.len(),
        brace_rest(s).len() <= s.len(),
        s.len() > 0 ==> brace_rest(s).len() < s.len(),
{
    lemma_lead_first(s, CharSet::Except('{'));
    if first_index(s, '{') < s.len() {
        lemma_close_index_bounds(s, first_index(s, '{') + 1, 1);
    }
}

/// Splits `input` at its first brace group: the content between the first
/// `{` and its matching `}`, and the text after that `}`. The text is read
/// up to the matching `}` only.
pub fn match_parens(input: &str) -> (r: (&str, &str))
    ensures
        r.0@ == brace_content(input@),
        r.1@ == brace_rest(input@),
{
    let bound: usize = byte_len(input);
    let mut opened: bool = false;
    let mut open: usize = 0;
    let mut depth: usize = 0;
    let mut i: usize = 0;
    for c in it: input.chars()
        invariant
            it.seq() == input@,
            i == it.index(),
            input@.len() <= bound,
            depth <= i,
            !opened ==> depth == 0 && forall|j: int| 0 <= j < i ==> input@[j] != '{',
            opened ==> open < i && open == first_index(input@, '{') && depth > 0 && close_index(
                input@,
                open + 1,
                1,
            ) == close_index(input@, i as int, depth as nat),
    {
        if !opened {
            if c == '{' {
                proof {
                    lemma_lead_len(input@, CharSet::Except('{'), i as int);
                }
                opened = true;
                open = i;
                depth = 1;
            }
        } else if c == '{' {
            depth = depth + 1;
        } else if c == '}' {
            depth = depth - 1;
            if depth == 0 {
                let (head, tail) = split_chars(input, i);
                let (_, content) = split_chars(head, open + 1);
                let (_, rest) = split_chars(tail, 1);
                assert(input@.take(i as int).skip(open + 1) == input@.subrange(
                    open + 1,
                    i as int,
                ));
                assert(input@.skip(i as int).skip(1) == input@.subrange(
                    i + 1,
                    input@.len() as int,
                ));
                return (content, rest);
            }
        }
        i = i + 1;
    }
    let (_, end) = split_chars(input, i);
    if !opened {
        proof {
            lemma_lead_len(input@, CharSet::Except('{'), i as int);
        }
        (end, end)
    } else {
        let (_, content) = split_chars(input, open + 1);
        assert(input@.skip(open + 1) == input@.subrange(open + 1, input@.len() as int));
        (content, end)
    }
}

} // verus!
