//! Idempotence of the markup repair: running the repair on its own output
//! changes nothing. Already-closed image tags gain no second slash, and
//! the entity and line-break rewrites find nothing left to rewrite.

use vstd::prelude::*;
use crate::repair::replace_all;
use crate::repair::fix_img;
use crate::repair::first_gt;
use crate::repair::has_gt;
use crate::repair::starts_img;
use crate::repair::lemma_first_gt;
use crate::repair::repair_spec;
use crate::repair::nbsp_pat;
use crate::repair::br_pat;
use crate::repair::br_rep;

verus! {

/// `q` occurs in `s` at position `i`.
pub open spec fn occurs_at(s: Seq<char>, q: Seq<char>, i: int) -> bool {
    0 <= i && i + q.len() <= s.len() && s.subrange(i, i + q.len() as int) == q
}

/// `q` occurs somewhere in `s`.
pub open spec fn has_occ(s: Seq<char>, q: Seq<char>) -> bool {
    exists|i: int| occurs_at(s, q, i)
}

/// `s` begins with `w`.
pub open spec fn has_prefix(s: Seq<char>, w: Seq<char>) -> bool {
    w.len() <= s.len() && s.take(w.len() as int) == w
}

proof fn lemma_occ_chars(s: Seq<char>, q: Seq<char>, i: int)
    requires
        occurs_at(s, q, i),
    ensures
        forall|k: int| 0 <= k < q.len() ==> s[i + k] == q[k],
{
    assert forall|k: int| 0 <= k < q.len() implies s[i + k] == q[k] by {
        assert(s.subrange(i, i + q.len() as int)[k] == s[i + k]);
    }
}

proof fn lemma_occ_from_chars(s: Seq<char>, q: Seq<char>, i: int)
    requires
        0 <= i,
        i + q.len() <= s.len(),
        forall|k: int| 0 <= k < q.len() ==> s[i + k] == q[k],
    ensures
        occurs_at(s, q, i),
{
    assert(s.subrange(i, i + q.len() as int) =~= q);
}

/// An occurrence inside a suffix is an occurrence in the whole.
proof fn lemma_no_occ_suffix(s: Seq<char>, q: Seq<char>, m: int)
    requires
        !has_occ(s, q),
        0 <= m <= s.len(),
    ensures
        !has_occ(s.skip(m), q),
{
    if has_occ(s.skip(m), q) {
        let i = choose|i: int| occurs_at(s.skip(m), q, i);
        assert(s.skip(m).subrange(i, i + q.len() as int) =~= s.subrange(m + i, m + i + q.len() as int));
        assert(occurs_at(s, q, m + i));
    }
}

/// If nothing in `w` equals the first character of `rep`, a prefix `w` of
/// the rewritten text was already a prefix of the input.
proof fn lemma_replace_fragment(pat: Seq<char>, rep: Seq<char>, w: Seq<char>, t: Seq<char>)
    requires
        pat.len() >= 1,
        rep.len() >= 1,
        forall|k: int| 0 <= k < w.len() ==> w[k] != rep[0],
        has_prefix(replace_all(t, pat, rep), w),
    ensures
        has_prefix(t, w),
    decreases t.len(),
{
    let out = replace_all(t, pat, rep);
    if w.len() == 0 {
        assert(t.take(0) =~= w);
    } else if t.len() < pat.len() {
    } else if t.take(pat.len() as int) == pat {
        assert(out[0] == rep[0]);
        assert(out.take(w.len() as int)[0] == w[0]);
        assert(false);
    } else {
        let out2 = replace_all(t.drop_first(), pat, rep);
        assert(out == seq![t[0]] + out2);
        assert(out.take(w.len() as int)[0] == w[0]);
        assert(w[0] == t[0]);
        assert(has_prefix(out2, w.drop_first())) by {
            assert(out2.take(w.len() - 1) =~= out.take(w.len() as int).skip(1)) by {
                assert forall|k: int| 0 <= k < w.len() - 1 implies out2.take(w.len() - 1)[k]
                    == out.take(w.len() as int).skip(1)[k] by {
                    assert(out[k + 1] == out2[k]);
                }
            }
            assert(out.take(w.len() as int).skip(1) =~= w.drop_first());
        }
        lemma_replace_fragment(pat, rep, w.drop_first(), t.drop_first());
        assert(t.take(w.len() as int) =~= w) by {
            assert forall|k: int| 0 <= k < w.len() implies t.take(w.len() as int)[k] == w[k] by {
                if k >= 1 {
                    assert(t.drop_first().take(w.len() - 1)[k - 1] == w.drop_first()[k - 1]);
                }
            }
        }
    }
}

/// Rewriting text that holds no occurrence of the pattern changes nothing.
proof fn lemma_replace_identity(s: Seq<char>, pat: Seq<char>, rep: Seq<char>)
    requires
        pat.len() >= 1,
        !has_occ(s, pat),
    ensures
        replace_all(s, pat, rep) == s,
    decreases s.len(),
{
    if s.len() < pat.len() {
    } else if s.take(pat.len() as int) == pat {
        assert(s.take(pat.len() as int) =~= s.subrange(0, pat.len() as int));
        assert(occurs_at(s, pat, 0));
        assert(false);
    } else {
        lemma_no_occ_suffix(s, pat, 1);
        assert(s.drop_first() =~= s.skip(1));
        lemma_replace_identity(s.drop_first(), pat, rep);
        assert(seq![s[0]] + s.drop_first() =~= s);
    }
}

/// At offset `i` into the replacement, the pattern disagrees with the
/// replacement before running off its end.
pub open spec fn mismatches_into(pat: Seq<char>, rep: Seq<char>, i: int) -> bool {
    exists|k: int| 0 <= k < pat.len() && i + k < rep.len() && rep[i + k] != #[trigger] pat[k]
}

/// After the rewrite no occurrence of the pattern is left, provided the
/// pattern never matches into the replacement and the pattern's tail never
/// holds the replacement's first character.
proof fn lemma_replace_no_pat(s: Seq<char>, pat: Seq<char>, rep: Seq<char>)
    requires
        pat.len() >= 1,
        rep.len() >= 1,
        forall|i: int| 0 <= i < rep.len() ==> #[trigger] mismatches_into(pat, rep, i),
        forall|k: int| 1 <= k < pat.len() ==> pat[k] != rep[0],
    ensures
        !has_occ(replace_all(s, pat, rep), pat),
    decreases s.len(),
{
    let out = replace_all(s, pat, rep);
    if s.len() < pat.len() {
        if has_occ(out, pat) {
            let i = choose|i: int| occurs_at(out, pat, i);
            assert(false);
        }
    } else if s.take(pat.len() as int) == pat {
        let out2 = replace_all(s.skip(pat.len() as int), pat, rep);
        lemma_replace_no_pat(s.skip(pat.len() as int), pat, rep);
        if has_occ(out, pat) {
            let i = choose|i: int| occurs_at(out, pat, i);
            lemma_occ_chars(out, pat, i);
            if i < rep.len() {
                assert(mismatches_into(pat, rep, i));
                let k = choose|k: int|
                    0 <= k < pat.len() && i + k < rep.len() && rep[i + k] != #[trigger] pat[k];
                assert(out[i + k] == rep[i + k]);
                assert(false);
            } else {
                assert forall|k: int| 0 <= k < pat.len() implies out2[i - rep.len() + k]
                    == pat[k] by {
                    assert(out[i + k] == out2[i + k - rep.len()]);
                }
                lemma_occ_from_chars(out2, pat, i - rep.len() as int);
                assert(false);
            }
        }
    } else {
        let out2 = replace_all(s.drop_first(), pat, rep);
        lemma_replace_no_pat(s.drop_first(), pat, rep);
        if has_occ(out, pat) {
            let i = choose|i: int| occurs_at(out, pat, i);
            lemma_occ_chars(out, pat, i);
            if i == 0 {
                assert(out[0] == s[0]);
                assert(has_prefix(out2, pat.drop_first())) by {
                    assert(out2.take(pat.len() - 1) =~= pat.drop_first()) by {
                        assert forall|k: int| 0 <= k < pat.len() - 1 implies out2.take(
                            pat.len() - 1,
                        )[k] == pat.drop_first()[k] by {
                            assert(out[k + 1] == out2[k]);
                        }
                    }
                }
                lemma_replace_fragment(pat, rep, pat.drop_first(), s.drop_first());
                assert(s.take(pat.len() as int) =~= pat) by {
                    assert forall|k: int| 0 <= k < pat.len() implies s.take(pat.len() as int)[k]
                        == pat[k] by {
                        if k >= 1 {
                            assert(s.drop_first().take(pat.len() - 1)[k - 1] == pat.drop_first()[k
                                - 1]);
                        }
                    }
                }
                assert(false);
            } else {
                assert forall|k: int| 0 <= k < pat.len() implies out2[i - 1 + k] == pat[k] by {
                    assert(out[i + k] == out2[i + k - 1]);
                }
                lemma_occ_from_chars(out2, pat, i - 1);
                assert(false);
            }
        }
    }
}

/// The rewrite brings in no new occurrence of an unrelated pattern `q`,
/// provided the replacement never holds `q`'s first character and `q`'s
/// tail never holds the replacement's first character.
proof fn lemma_replace_preserves_absence(s: Seq<char>, pat: Seq<char>, rep: Seq<char>, q: Seq<char>)
    requires
        pat.len() >= 1,
        rep.len() >= 1,
        q.len() >= 1,
        !has_occ(s, q),
        forall|k: int| 0 <= k < rep.len() ==> rep[k] != q[0],
        forall|k: int| 1 <= k < q.len() ==> q[k] != rep[0],
    ensures
        !has_occ(replace_all(s, pat, rep), q),
    decreases s.len(),
{
    let out = replace_all(s, pat, rep);
    if s.len() < pat.len() {
    } else if s.take(pat.len() as int) == pat {
        let out2 = replace_all(s.skip(pat.len() as int), pat, rep);
        lemma_no_occ_suffix(s, q, pat.len() as int);
        lemma_replace_preserves_absence(s.skip(pat.len() as int), pat, rep, q);
        if has_occ(out, q) {
            let i = choose|i: int| occurs_at(out, q, i);
            lemma_occ_chars(out, q, i);
            if i < rep.len() {
                assert(out[i] == rep[i]);
                assert(out[i] == q[0]);
                assert(false);
            } else {
                assert forall|k: int| 0 <= k < q.len() implies out2[i - rep.len() + k] == q[k] by {
                    assert(out[i + k] == out2[i + k - rep.len()]);
                }
                lemma_occ_from_chars(out2, q, i - rep.len() as int);
                assert(false);
            }
        }
    } else {
        let out2 = replace_all(s.drop_first(), pat, rep);
        lemma_no_occ_suffix(s, q, 1);
        assert(s.drop_first() =~= s.skip(1));
        lemma_replace_preserves_absence(s.drop_first(), pat, rep, q);
        if has_occ(out, q) {
            let i = choose|i: int| occurs_at(out, q, i);
            lemma_occ_chars(out, q, i);
            if i == 0 {
                assert(out[0] == s[0]);
                assert(has_prefix(out2, q.drop_first())) by {
                    assert(out2.take(q.len() - 1) =~= q.drop_first()) by {
                        assert forall|k: int| 0 <= k < q.len() - 1 implies out2.take(q.len()
                            - 1)[k] == q.drop_first()[k] by {
                            assert(out[k + 1] == out2[k]);
                        }
                    }
                }
                lemma_replace_fragment(pat, rep, q.drop_first(), s.drop_first());
                assert forall|k: int| 0 <= k < q.len() implies s[0 + k] == q[k] by {
                    if k >= 1 {
                        assert(s.drop_first().take(q.len() - 1)[k - 1] == q.drop_first()[k - 1]);
                    }
                }
                lemma_occ_from_chars(s, q, 0);
                assert(false);
            } else {
                assert forall|k: int| 0 <= k < q.len() implies out2[i - 1 + k] == q[k] by {
                    assert(out[i + k] == out2[i + k - 1]);
                }
                lemma_occ_from_chars(out2, q, i - 1);
                assert(false);
            }
        }
    }
}


/// A literal `<img` opens at position `i` of `s`.
pub open spec fn img_open_at(s: Seq<char>, i: int) -> bool {
    0 <= i && i + 4 <= s.len() && s[i] == '<' && s[i + 1] == 'i' && s[i + 2] == 'm' && s[i + 3]
        == 'g'
}

/// The image tag opening at `i` is already closed: the character just
/// before the first `>` after it is a `/`.
pub open spec fn closed_at(s: Seq<char>, i: int) -> bool {
    s[i + 4 + first_gt(s.skip(i + 4)) - 1] == '/'
}

/// Every image tag of `s` that has a closing `>` is already self-closed.
pub open spec fn img_closed(s: Seq<char>) -> bool {
    forall|i: int| #[trigger] img_open_at(s, i) && has_gt(s.skip(i + 4)) ==> closed_at(s, i)
}

/// Text with no `>` at all holds no tag to rewrite.
proof fn lemma_no_gt_identity(s: Seq<char>)
    requires
        !has_gt(s),
    ensures
        fix_img(s) == s,
    decreases s.len(),
{
    if s.len() == 0 {
    } else if starts_img(s) && has_gt(s.skip(4)) {
        let w = choose|k: int| 0 <= k < s.skip(4).len() && s.skip(4)[k] == '>';
        assert(s[w + 4] == '>');
        assert(false);
    } else {
        assert(!has_gt(s.drop_first())) by {
            if has_gt(s.drop_first()) {
                let w = choose|k: int| 0 <= k < s.drop_first().len() && s.drop_first()[k] == '>';
                assert(s[w + 1] == '>');
            }
        }
        lemma_no_gt_identity(s.drop_first());
        assert(seq![s[0]] + s.drop_first() =~= s);
    }
}

/// If nothing in `w` is a `<`, a prefix `w` of the rewritten text was
/// already a prefix of the input.
proof fn lemma_fix_img_fragment(w: Seq<char>, t: Seq<char>)
    requires
        forall|k: int| 0 <= k < w.len() ==> w[k] != '<',
        has_prefix(fix_img(t), w),
    ensures
        has_prefix(t, w),
    decreases t.len(),
{
    let out = fix_img(t);
    if w.len() == 0 {
        assert(t.take(0) =~= w);
    } else if t.len() == 0 {
    } else if starts_img(t) && has_gt(t.skip(4)) {
        lemma_first_gt(t.skip(4));
        let p = 4 + first_gt(t.skip(4));
        let be = if t[p - 1] == '/' {
            p - 1
        } else {
            p
        };
        assert(fix_img(t) == t.take(be) + seq!['/', '>'] + fix_img(t.skip(p + 1)));
        assert(out[0] == t[0]);
        assert(out.take(w.len() as int)[0] == w[0]);
        assert(false);
    } else {
        let out2 = fix_img(t.drop_first());
        assert(out == seq![t[0]] + out2);
        assert(out.take(w.len() as int)[0] == w[0]);
        assert(w[0] == t[0]);
        assert(has_prefix(out2, w.drop_first())) by {
            assert(out2.take(w.len() - 1) =~= w.drop_first()) by {
                assert forall|k: int| 0 <= k < w.len() - 1 implies out2.take(w.len() - 1)[k]
                    == w.drop_first()[k] by {
                    assert(out.take(w.len() as int)[k + 1] == w[k + 1]);
                    assert(out[k + 1] == out2[k]);
                }
            }
        }
        lemma_fix_img_fragment(w.drop_first(), t.drop_first());
        assert(t.take(w.len() as int) =~= w) by {
            assert forall|k: int| 0 <= k < w.len() implies t.take(w.len() as int)[k] == w[k] by {
                if k >= 1 {
                    assert(t.drop_first().take(w.len() - 1)[k - 1] == w.drop_first()[k - 1]);
                }
            }
        }
    }
}

/// `img_closed` carries over to every suffix.
proof fn lemma_img_closed_suffix(s: Seq<char>, m: int)
    requires
        img_closed(s),
        0 <= m <= s.len(),
    ensures
        img_closed(s.skip(m)),
{
    let x = s.skip(m);
    assert forall|i: int| #[trigger] img_open_at(x, i) && has_gt(x.skip(i + 4)) implies closed_at(x, i) by {
        assert(x.skip(i + 4) =~= s.skip(m + i + 4));
        assert(img_open_at(s, m + i)) by {
            assert(x[i] == s[m + i]);
            assert(x[i + 1] == s[m + i + 1]);
            assert(x[i + 2] == s[m + i + 2]);
            assert(x[i + 3] == s[m + i + 3]);
        }
        assert(closed_at(s, m + i));
        let g = first_gt(s.skip(m + i + 4));
        lemma_first_gt(s.skip(m + i + 4));
        assert(x[i + 4 + g - 1] == s[m + i + 4 + g - 1]) by {
            assert(has_gt(s.skip(m + i + 4)));
            assert(g >= 1) by {
                if g == 0 {
                    assert(s[m + i + 4 - 1] == '/');
                    assert(s[m + i + 3] == 'g');
                }
            }
        }
    }
}

/// Rewriting text whose image tags are all closed changes nothing: an
/// already self-closed tag is left character-for-character identical.
pub proof fn lemma_fix_img_identity(s: Seq<char>)
    requires
        img_closed(s),
    ensures
        (fix_img(s) == s),
    decreases s.len(),
{
    if s.len() == 0 {
    } else if starts_img(s) && has_gt(s.skip(4)) {
        lemma_first_gt(s.skip(4));
        let g = first_gt(s.skip(4));
        let p = 4 + g;
        assert(img_open_at(s, 0));
        assert(closed_at(s, 0));
        assert(s[p - 1] == '/');
        let be = p - 1;
        assert(fix_img(s) == s.take(be) + seq!['/', '>'] + fix_img(s.skip(p + 1)));
        assert(s.skip(4)[g] == '>');
        assert(s[p] == '>');
        lemma_img_closed_suffix(s, p + 1);
        lemma_fix_img_identity(s.skip(p + 1));
        assert(s.take(be) + seq!['/', '>'] + s.skip(p + 1) =~= s);
    } else {
        lemma_img_closed_suffix(s, 1);
        assert(s.skip(1) =~= s.drop_first());
        lemma_fix_img_identity(s.drop_first());
        assert(seq![s[0]] + s.drop_first() =~= s);
    }
}

/// The first `>` is exactly where a `>` first stands.
proof fn lemma_first_gt_is(x: Seq<char>, d: int)
    requires
        0 <= d < x.len(),
        x[d] == '>',
        forall|j: int| 0 <= j < d ==> x[j] != '>',
    ensures
        first_gt(x) == d,
    decreases d,
{
    if d == 0 {
    } else {
        assert(x[0] != '>');
        assert(x.drop_first()[d - 1] == '>');
        assert forall|j: int| 0 <= j < d - 1 implies x.drop_first()[j] != '>' by {
            assert(x[j + 1] != '>');
        }
        lemma_first_gt_is(x.drop_first(), d - 1);
    }
}

/// The rewrite brings in no new occurrence of `q`, provided `q` holds no
/// `/`, does not start with `>`, and holds no `<` past its first character.
proof fn lemma_fix_img_preserves_absence(s: Seq<char>, q: Seq<char>)
    requires
        q.len() >= 1,
        !has_occ(s, q),
        forall|k: int| 0 <= k < q.len() ==> q[k] != '/',
        q[0] != '>',
        forall|k: int| 1 <= k < q.len() ==> q[k] != '<',
    ensures
        !has_occ(fix_img(s), q),
    decreases s.len(),
{
    let out = fix_img(s);
    if s.len() == 0 {
        if has_occ(out, q) {
            let i = choose|i: int| occurs_at(out, q, i);
            assert(false);
        }
    } else if starts_img(s) && has_gt(s.skip(4)) {
        lemma_first_gt(s.skip(4));
        let g = first_gt(s.skip(4));
        let p = 4 + g;
        let be = if s[p - 1] == '/' {
            p - 1
        } else {
            p
        };
        let out2 = fix_img(s.skip(p + 1));
        lemma_no_occ_suffix(s, q, p + 1);
        lemma_fix_img_preserves_absence(s.skip(p + 1), q);
        assert(out == s.take(be) + seq!['/', '>'] + out2);
        assert(out.len() == be + 2 + out2.len());
        assert(out[be] == '/');
        assert(out[be + 1] == '>');
        if has_occ(out, q) {
            let i = choose|i: int| occurs_at(out, q, i);
            lemma_occ_chars(out, q, i);
            if i + q.len() <= be {
                assert forall|k: int| 0 <= k < q.len() implies s[i + k] == q[k] by {
                    assert(out[i + k] == q[k]);
                    assert(out[i + k] == s[i + k]);
                }
                lemma_occ_from_chars(s, q, i);
                assert(false);
            } else if i >= be + 2 {
                assert forall|k: int| 0 <= k < q.len() implies out2[i - be - 2 + k] == q[k] by {
                    assert(out[i + k] == q[k]);
                    assert(out[i + k] == out2[i + k - be - 2]);
                }
                lemma_occ_from_chars(out2, q, i - be - 2);
                assert(false);
            } else {
                if i <= be {
                    assert(out[i + (be - i)] == q[be - i]);
                    assert(q[be - i] == '/');
                    assert(false);
                } else {
                    assert(out[i + 0] == q[0]);
                    assert(q[0] == '>');
                    assert(false);
                }
            }
        }
    } else {
        let out2 = fix_img(s.drop_first());
        lemma_no_occ_suffix(s, q, 1);
        assert(s.drop_first() =~= s.skip(1));
        lemma_fix_img_preserves_absence(s.drop_first(), q);
        assert(out == seq![s[0]] + out2);
        if has_occ(out, q) {
            let i = choose|i: int| occurs_at(out, q, i);
            lemma_occ_chars(out, q, i);
            if i == 0 {
                assert(out[0] == s[0]);
                assert(has_prefix(out2, q.drop_first())) by {
                    assert(out2.take(q.len() - 1) =~= q.drop_first()) by {
                        assert forall|k: int| 0 <= k < q.len() - 1 implies out2.take(q.len()
                            - 1)[k] == q.drop_first()[k] by {
                            assert(out[k + 1] == q[k + 1]);
                            assert(out[k + 1] == out2[k]);
                        }
                    }
                }
                lemma_fix_img_fragment(q.drop_first(), s.drop_first());
                assert forall|k: int| 0 <= k < q.len() implies s[0 + k] == q[k] by {
                    if k >= 1 {
                        assert(s.drop_first().take(q.len() - 1)[k - 1] == q.drop_first()[k - 1]);
                    }
                }
                lemma_occ_from_chars(s, q, 0);
                assert(false);
            } else {
                assert forall|k: int| 0 <= k < q.len() implies out2[i - 1 + k] == q[k] by {
                    assert(out[i + k] == q[k]);
                    assert(out[i + k] == out2[i + k - 1]);
                }
                lemma_occ_from_chars(out2, q, i - 1);
                assert(false);
            }
        }
    }
}

/// Every image tag in the rewritten text is closed.
pub proof fn lemma_fix_img_closed(s: Seq<char>)
    ensures
        img_closed(fix_img(s)),
    decreases s.len(),
{
    let out = fix_img(s);
    if s.len() == 0 {
        assert forall|i: int| #[trigger] img_open_at(out, i) && has_gt(out.skip(i + 4)) implies closed_at(out, i) by {
            assert(false);
        }
    } else if starts_img(s) && has_gt(s.skip(4)) {
        lemma_first_gt(s.skip(4));
        let g = first_gt(s.skip(4));
        let p = 4 + g;
        let be = if s[p - 1] == '/' {
            p - 1
        } else {
            p
        };
        let out2 = fix_img(s.skip(p + 1));
        lemma_fix_img_closed(s.skip(p + 1));
        assert(out == s.take(be) + seq!['/', '>'] + out2);
        assert(out.len() == be + 2 + out2.len());
        assert(out[be] == '/');
        assert(out[be + 1] == '>');
        assert forall|k: int| 0 <= k < be + 1 implies out[k] != '>' by {
            if k < be {
                assert(out[k] == s[k]);
                if k >= 4 {
                    assert(s.skip(4)[k - 4] != '>');
                }
            }
        }
        assert forall|i: int| #[trigger] img_open_at(out, i) && has_gt(out.skip(i + 4)) implies closed_at(out, i) by {
            if i + 4 <= be + 1 {
                assert(i + 4 <= be) by {
                    if i <= be && be < i + 4 {
                        assert(out[i + (be - i)] == '/');
                        assert(out[i] == '<' && out[i + 1] == 'i' && out[i + 2] == 'm' && out[i
                            + 3] == 'g');
                    }
                }
                let x = out.skip(i + 4);
                assert(x[be + 1 - (i + 4)] == out[be + 1]);
                assert forall|j: int| 0 <= j < be + 1 - (i + 4) implies x[j] != '>' by {
                    assert(x[j] == out[i + 4 + j]);
                }
                lemma_first_gt_is(x, be + 1 - (i + 4));
                assert(out[i + 4 + first_gt(x) - 1] == out[be]);
            } else if i >= be + 2 {
                assert(img_open_at(out2, i - be - 2)) by {
                    assert(out[i] == out2[i - be - 2]);
                    assert(out[i + 1] == out2[i - be - 2 + 1]);
                    assert(out[i + 2] == out2[i - be - 2 + 2]);
                    assert(out[i + 3] == out2[i - be - 2 + 3]);
                }
                assert(out.skip(i + 4) =~= out2.skip(i - be - 2 + 4)) by {
                    assert forall|j: int| 0 <= j < out.len() - i - 4 implies (#[trigger] out.skip(
                        i + 4,
                    )[j]) == out2.skip(i - be - 2 + 4)[j] by {
                        assert(out.skip(i + 4)[j] == out[i + 4 + j]);
                        assert(out[i + 4 + j] == out2[i + 4 + j - be - 2]);
                    }
                }
                assert(has_gt(out2.skip(i - be - 2 + 4)));
                assert(closed_at(out2, i - be - 2));
                let g2 = first_gt(out2.skip(i - be - 2 + 4));
                lemma_first_gt(out2.skip(i - be - 2 + 4));
                assert(first_gt(out.skip(i + 4)) == g2);
                assert(out[i + 4 + g2 - 1] == out2[i - be - 2 + 4 + g2 - 1]) by {
                    assert(g2 >= 1) by {
                        if g2 == 0 {
                            assert(out2[i - be - 2 + 3] == 'g');
                            assert(out2[i - be - 2 + 4 - 1] == '/');
                        }
                    }
                }
            } else {
                assert(i <= be + 1 && i + 4 > be + 1);
                if i <= be {
                    assert(out[i + (be - i)] == '/');
                    assert(out[i] == '<' && out[i + 1] == 'i' && out[i + 2] == 'm' && out[i + 3]
                        == 'g');
                    assert(false);
                } else {
                    assert(out[i] == '>');
                    assert(out[i] == '<');
                    assert(false);
                }
            }
        }
    } else {
        let out2 = fix_img(s.drop_first());
        lemma_fix_img_closed(s.drop_first());
        assert(out == seq![s[0]] + out2);
        assert forall|i: int| #[trigger] img_open_at(out, i) && has_gt(out.skip(i + 4)) implies closed_at(out, i) by {
            if i >= 1 {
                assert(img_open_at(out2, i - 1)) by {
                    assert(out[i] == out2[i - 1]);
                    assert(out[i + 1] == out2[i]);
                    assert(out[i + 2] == out2[i + 1]);
                    assert(out[i + 3] == out2[i + 2]);
                }
                assert(out.skip(i + 4) =~= out2.skip(i - 1 + 4)) by {
                    assert forall|j: int| 0 <= j < out.len() - i - 4 implies (#[trigger] out.skip(
                        i + 4,
                    )[j]) == out2.skip(i + 3)[j] by {
                        assert(out.skip(i + 4)[j] == out[i + 4 + j]);
                        assert(out[i + 4 + j] == out2[i + 3 + j]);
                    }
                }
                assert(has_gt(out2.skip(i - 1 + 4)));
                assert(closed_at(out2, i - 1));
                let g2 = first_gt(out2.skip(i - 1 + 4));
                lemma_first_gt(out2.skip(i - 1 + 4));
                assert(first_gt(out.skip(i + 4)) == g2);
                assert(out[i + 4 + g2 - 1] == out2[i - 1 + 4 + g2 - 1]) by {
                    assert(g2 >= 1) by {
                        if g2 == 0 {
                            assert(out2[i - 1 + 3] == 'g');
                            assert(out2[i - 1 + 4 - 1] == '/');
                        }
                    }
                }
            } else {
                assert(out[0] == s[0]);
                assert(has_prefix(out2, seq!['i', 'm', 'g'])) by {
                    assert(out2.take(3) =~= seq!['i', 'm', 'g']) by {
                        assert(out2[0] == out[1]);
                        assert(out2[1] == out[2]);
                        assert(out2[2] == out[3]);
                    }
                }
                lemma_fix_img_fragment(seq!['i', 'm', 'g'], s.drop_first());
                assert(starts_img(s)) by {
                    assert(s[1] == s.drop_first().take(3)[0]);
                    assert(s[2] == s.drop_first().take(3)[1]);
                    assert(s[3] == s.drop_first().take(3)[2]);
                }
                assert(!has_gt(s.skip(4)));
                assert(!has_gt(s.drop_first())) by {
                    if has_gt(s.drop_first()) {
                        let w = choose|k: int|
                            0 <= k < s.drop_first().len() && s.drop_first()[k] == '>';
                        assert(s[w + 1] == '>');
                        if w + 1 >= 4 {
                            assert(s.skip(4)[w + 1 - 4] == '>');
                        }
                    }
                }
                lemma_no_gt_identity(s.drop_first());
                assert(out.skip(4) =~= s.skip(4)) by {
                    assert forall|j: int| 0 <= j < s.len() - 4 implies out.skip(4)[j] == s.skip(
                        4,
                    )[j] by {
                        assert(out.skip(4)[j] == out[4 + j]);
                        assert(out[4 + j] == out2[3 + j]);
                    }
                }
                assert(has_gt(s.skip(4)));
                assert(false);
            }
        }
    }
}

/// Markup repair is idempotent: running the repair on its own output
/// yields that output unchanged. In particular an already self-closed
/// image tag gains no second slash.
pub proof fn lemma_repair_idempotent(s: Seq<char>)
    ensures
        repair_spec(repair_spec(s)) == repair_spec(s),
{
    let np = nbsp_pat();
    let sp = seq![' '];
    let bp = br_pat();
    let brp = br_rep();
    assert(np[0] == '&' && np[1] == 'n' && np[2] == 'b' && np[3] == 's' && np[4] == 'p' && np[5]
        == ';');
    assert(sp[0] == ' ');
    assert(bp[0] == '<' && bp[1] == 'b' && bp[2] == 'r' && bp[3] == '>');
    assert(brp[0] == '<' && brp[1] == 'b' && brp[2] == 'r' && brp[3] == '/' && brp[4] == '>');
    let a = replace_all(s, np, sp);
    let b = replace_all(a, bp, brp);
    let y = fix_img(b);
    assert(repair_spec(s) == y);
    assert forall|i: int| 0 <= i < sp.len() implies #[trigger] mismatches_into(np, sp, i) by {
        assert(sp[i + 0] != np[0]);
    }
    lemma_replace_no_pat(s, np, sp);
    assert forall|i: int| 0 <= i < brp.len() implies #[trigger] mismatches_into(bp, brp, i) by {
        if i == 0 {
            assert(brp[i + 3] != bp[3]);
        } else {
            assert(brp[i + 0] != bp[0]);
        }
    }
    lemma_replace_no_pat(a, bp, brp);
    lemma_replace_preserves_absence(a, bp, brp, np);
    lemma_fix_img_preserves_absence(b, np);
    lemma_fix_img_preserves_absence(b, bp);
    lemma_fix_img_closed(b);
    lemma_replace_identity(y, np, sp);
    lemma_replace_identity(y, bp, brp);
    lemma_fix_img_identity(y);
    assert(repair_spec(y) == y);
}

} // verus!
