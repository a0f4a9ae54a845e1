//! Text normalization shared by question titles and answer choices.
//!
//! Both rules strip a rule-specific prefix from the trimmed input and then
//! collapse whitespace: every run of whitespace becomes a single space, and
//! the result carries no leading or trailing space.

use vstd::prelude::*;
use vstd::string::StrSliceExecFns;
use crate::is_space;
use crate::space_char;
use crate::str_chars;
use crate::chars_to_string;

verus! {

/// Whitespace collapse over a character sequence: whitespace runs become a
/// single space, leading and trailing whitespace disappears.
pub open spec fn collapse_ws(s: Seq<char>) -> Seq<char>
    decreases s.len(),
{
    if s.len() == 0 {
        Seq::empty()
    } else if is_space(s[0]) {
        collapse_ws(s.drop_first())
    } else if s.len() == 1 {
        seq![s[0]]
    } else if is_space(s[1]) {
        let rest = collapse_ws(s.drop_first());
        if rest.len() == 0 {
            seq![s[0]]
        } else {
            seq![s[0], ' '] + rest
        }
    } else {
        seq![s[0]] + collapse_ws(s.drop_first())
    }
}

/// The sequence with its leading whitespace removed.
pub open spec fn trim_start(s: Seq<char>) -> Seq<char>
    decreases s.len(),
{
    if s.len() > 0 && is_space(s[0]) {
        trim_start(s.drop_first())
    } else {
        s
    }
}

/// Characters stripped from the front of a title: the ASCII decimal
/// digits and dots. Titles number their questions with ASCII digits; other
/// scripts' digits are deliberately left alone.
pub open spec fn is_digit_dot(c: char) -> bool {
    ('0' <= c && c <= '9') || c == '.'
}

/// ASCII alphabetic characters, as used by the answer-prefix rule.
pub open spec fn is_alpha(c: char) -> bool {
    ('a' <= c && c <= 'z') || ('A' <= c && c <= 'Z')
}

/// The sequence with its maximal leading run of digits and dots removed.
pub open spec fn strip_digit_dots(s: Seq<char>) -> Seq<char>
    decreases s.len(),
{
    if s.len() > 0 && is_digit_dot(s[0]) {
        strip_digit_dots(s.drop_first())
    } else {
        s
    }
}

/// The sequence with a leading "letter followed by a dot" removed, if present.
pub open spec fn strip_answer_prefix(s: Seq<char>) -> Seq<char> {
    if s.len() >= 2 && is_alpha(s[0]) && s[1] == '.' {
        s.skip(2)
    } else {
        s
    }
}

/// Plain normalization: whitespace collapse only.
pub open spec fn norm_string(s: Seq<char>) -> Seq<char> {
    collapse_ws(s)
}

/// Title normalization: trim, strip the leading digit/dot run, collapse.
pub open spec fn norm_title(s: Seq<char>) -> Seq<char> {
    collapse_ws(strip_digit_dots(trim_start(s)))
}

/// Answer normalization: trim, strip a leading "letter dot" pair, collapse.
pub open spec fn norm_answer(s: Seq<char>) -> Seq<char> {
    collapse_ws(strip_answer_prefix(trim_start(s)))
}

/// Executable mirror of `is_digit_dot`.
fn digit_dot_char(c: char) -> (r: bool)
    ensures
        r == is_digit_dot(c),
{
    ('0' <= c && c <= '9') || c == '.'
}

/// Executable mirror of `is_alpha`.
fn alpha_char(c: char) -> (r: bool)
    ensures
        r == is_alpha(c),
{
    ('a' <= c && c <= 'z') || ('A' <= c && c <= 'Z')
}

/// Collapse whitespace in `v` from index `from` on, per `collapse_ws`.
fn collapse_from(v: &Vec<char>, from: usize) -> (out: Vec<char>)
    requires
        from <= v@.len(),
    ensures
        out@ == collapse_ws(v@.skip(from as int)),
{
    let n = v.len();
    let mut acc: Vec<char> = Vec::new();
    let mut i: usize = n;
    assert(v@.skip(n as int) =~= Seq::<char>::empty());
    while i > from
        invariant
            from <= i <= n,
            n == v@.len(),
            acc@ == collapse_ws(v@.skip(i as int)),
        decreases i,
    {
        i = i - 1;
        let c = v[i];
        let ghost s = v@.skip(i as int);
        proof {
            assert(s.len() == n - i);
            assert(s[0] == v@[i as int]);
            assert(s.drop_first() =~= v@.skip(i as int + 1));
        }
        if space_char(c) {
            // acc already equals collapse_ws of the tail without this space
            assert(collapse_ws(s) == collapse_ws(s.drop_first()));
        } else if i + 1 == n {
            acc = Vec::new();
            acc.push(c);
            assert(acc@ =~= seq![s[0]]);
        } else {
            let d = v[i + 1];
            proof {
                assert(s[1] == v@[i as int + 1]);
            }
            if space_char(d) {
                if acc.len() == 0 {
                    acc.push(c);
                    assert(acc@ =~= seq![s[0]]);
                } else {
                    acc.insert(0, ' ');
                    acc.insert(0, c);
                    assert(acc@ =~= seq![s[0], ' '] + collapse_ws(s.drop_first()));
                }
            } else {
                acc.insert(0, c);
                assert(acc@ =~= seq![s[0]] + collapse_ws(s.drop_first()));
            }
        }
    }
    acc
}

/// Count of leading whitespace characters of `v`.
fn leading_ws(v: &Vec<char>) -> (i: usize)
    ensures
        i <= v@.len(),
        trim_start(v@) == v@.skip(i as int),
{
    let n = v.len();
    let mut i: usize = 0;
    proof {
        assert(v@.skip(0) =~= v@);
    }
    while i < n && space_char(v[i])
        invariant
            0 <= i <= n,
            n == v@.len(),
            trim_start(v@) == trim_start(v@.skip(i as int)),
        decreases n - i,
    {
        proof {
            let s = v@.skip(i as int);
            assert(s[0] == v@[i as int]);
            assert(s.drop_first() =~= v@.skip(i as int + 1));
        }
        i = i + 1;
    }
    proof {
        let s = v@.skip(i as int);
        if i < n {
            assert(s[0] == v@[i as int]);
            assert(!is_space(s[0]));
        }
        assert(trim_start(s) == s);
    }
    i
}

/// Whitespace-collapse a string, per the shared normalization rule.
pub fn normalize_string(s: &str) -> (r: String)
    ensures
        r@ == norm_string(s@),
{
    let v = str_chars(s);
    proof {
        assert(v@.skip(0) =~= v@);
    }
    let out = collapse_from(&v, 0);
    chars_to_string(&out)
}

/// Normalize a question title: trim, strip the leading digit/dot run
/// (a section number such as a chapter prefix), then collapse whitespace.
pub fn normalize_question_title(s: &str) -> (r: String)
    ensures
        r@ == norm_title(s@),
{
    let v = str_chars(s);
    let n = v.len();
    let start = leading_ws(&v);
    let mut i: usize = start;
    while i < n && digit_dot_char(v[i])
        invariant
            start <= i <= n,
            n == v@.len(),
            trim_start(v@) == v@.skip(start as int),
            strip_digit_dots(v@.skip(start as int)) == strip_digit_dots(v@.skip(i as int)),
        decreases n - i,
    {
        proof {
            let s0 = v@.skip(i as int);
            assert(s0[0] == v@[i as int]);
            assert(s0.drop_first() =~= v@.skip(i as int + 1));
        }
        i = i + 1;
    }
    proof {
        let s0 = v@.skip(i as int);
        if i < n {
            assert(s0[0] == v@[i as int]);
            assert(!is_digit_dot(s0[0]));
        }
        assert(strip_digit_dots(s0) == s0);
    }
    let out = collapse_from(&v, i);
    chars_to_string(&out)
}

/// Normalize an answer choice: trim, strip a leading "letter dot" label
/// (such as an enumeration letter), then collapse whitespace.
pub fn normalize_answer_text(s: &str) -> (r: String)
    ensures
        r@ == norm_answer(s@),
{
    let v = str_chars(s);
    let n = v.len();
    let start = leading_ws(&v);
    let ghost t = v@.skip(start as int);
    let strip: bool = if n - start > 1 {
        alpha_char(v[start]) && v[start + 1] == '.'
    } else {
        false
    };
    proof {
        if n - start > 1 {
            assert(t[0] == v@[start as int]);
            assert(t[1] == v@[start as int + 1]);
        }
        assert(t.len() == n - start);
    }
    let from: usize = if strip {
        proof {
            assert(t.skip(2) =~= v@.skip(start as int + 2));
        }
        start + 2
    } else {
        proof {
            assert(strip_answer_prefix(t) == t);
        }
        start
    };
    let out = collapse_from(&v, from);
    chars_to_string(&out)
}

/// A sequence in collapsed form: any whitespace character in it is a plain
/// space, no two spaces are adjacent, and it neither starts nor ends with a
/// space.
pub open spec fn collapsed(t: Seq<char>) -> bool {
    &&& forall|i: int| 0 <= i < t.len() ==> (is_space(#[trigger] t[i]) ==> t[i] == ' ')
    &&& forall|i: int| 0 <= i < t.len() - 1 ==> ((#[trigger] t[i]) == ' ' ==> t[i + 1] != ' ')
    &&& t.len() > 0 ==> t[0] != ' ' && t[t.len() - 1] != ' '
}

proof fn lemma_collapse_ws_collapsed(s: Seq<char>)
    ensures
        collapsed(collapse_ws(s)),
    decreases s.len(),
{
    if s.len() == 0 {
    } else if is_space(s[0]) {
        lemma_collapse_ws_collapsed(s.drop_first());
    } else if s.len() == 1 {
    } else if is_space(s[1]) {
        lemma_collapse_ws_collapsed(s.drop_first());
        let rest = collapse_ws(s.drop_first());
        if rest.len() == 0 {
        } else {
            let t = seq![s[0], ' '] + rest;
            assert(t[0] == s[0]);
            assert(t[1] == ' ');
            assert(t[2] == rest[0]);
            assert forall|i: int| 0 <= i < t.len() && is_space(#[trigger] t[i]) implies t[i]
                == ' ' by {
                if i >= 2 {
                    assert(t[i] == rest[i - 2]);
                }
            }
            assert forall|i: int| 0 <= i < t.len() - 1 && (#[trigger] t[i]) == ' ' implies t[i
                + 1] != ' ' by {
                if i >= 2 {
                    assert(t[i] == rest[i - 2]);
                }
                assert(t[i + 1] == rest[i - 1]);
            }
            assert(t[t.len() - 1] == rest[rest.len() - 1]);
        }
    } else {
        lemma_collapse_ws_collapsed(s.drop_first());
        let rest = collapse_ws(s.drop_first());
        let t = seq![s[0]] + rest;
        assert(t[0] == s[0]);
        assert forall|i: int| 0 <= i < t.len() && is_space(#[trigger] t[i]) implies t[i] == ' '
            by {
            if i >= 1 {
                assert(t[i] == rest[i - 1]);
            }
        }
        assert forall|i: int| 0 <= i < t.len() - 1 && (#[trigger] t[i]) == ' ' implies t[i + 1]
            != ' ' by {
            if i >= 1 {
                assert(t[i] == rest[i - 1]);
            }
            assert(t[i + 1] == rest[i]);
            if i == 0 {
                assert(t[0] == s[0]);
                assert(!is_space(s[0]));
            }
        }
        if rest.len() > 0 {
            assert(t[t.len() - 1] == rest[rest.len() - 1]);
        }
    }
}

/// Every normalization rule yields a collapsed string: no newlines or other
/// whitespace besides single interior spaces, and no space at either end.
pub proof fn lemma_normalization_collapsed(s: Seq<char>)
    ensures
        collapsed(norm_string(s)),
        collapsed(norm_title(s)),
        collapsed(norm_answer(s)),
{
    lemma_collapse_ws_collapsed(s);
    lemma_collapse_ws_collapsed(strip_digit_dots(trim_start(s)));
    lemma_collapse_ws_collapsed(strip_answer_prefix(trim_start(s)));
}

} // verus!
