//! Markup repair: the rewrites that make loosely-authored markup safe for a
//! strict structural parser.
//!
//! Three rewrites run in order: every literal `&nbsp;` becomes a space,
//! every `<br>` becomes `<br/>`, and every image tag is rewritten to end in
//! exactly one `/>` whether or not it was self-closed before.

use vstd::prelude::*;
use crate::str_chars;
use crate::chars_to_string;

verus! {

/// Replace every occurrence of `pat` in `s` with `rep`, scanning left to
/// right over non-overlapping occurrences.
pub open spec fn replace_all(s: Seq<char>, pat: Seq<char>, rep: Seq<char>) -> Seq<char>
    decreases s.len(),
{
    if pat.len() == 0 || s.len() < pat.len() {
        s
    } else if s.take(pat.len() as int) == pat {
        rep + replace_all(s.skip(pat.len() as int), pat, rep)
    } else {
        seq![s[0]] + replace_all(s.drop_first(), pat, rep)
    }
}

/// Index of the first `>` in `s`, or `s.len()` if there is none.
pub open spec fn first_gt(s: Seq<char>) -> int
    decreases s.len(),
{
    if s.len() == 0 {
        0
    } else if s[0] == '>' {
        0
    } else {
        1 + first_gt(s.drop_first())
    }
}

/// Whether `s` holds a `>` anywhere.
pub open spec fn has_gt(s: Seq<char>) -> bool {
    exists|i: int| 0 <= i < s.len() && s[i] == '>'
}

pub proof fn lemma_first_gt(s: Seq<char>)
    ensures
        0 <= first_gt(s) <= s.len(),
        first_gt(s) < s.len() ==> s[first_gt(s)] == '>',
        forall|i: int| 0 <= i < first_gt(s) ==> s[i] != '>',
        has_gt(s) <==> first_gt(s) < s.len(),
    decreases s.len(),
{
    if s.len() == 0 {
    } else if s[0] == '>' {
    } else {
        lemma_first_gt(s.drop_first());
        let t = s.drop_first();
        assert(forall|i: int| 0 <= i < first_gt(s) ==> s[i] != '>') by {
            assert(forall|i: int| 1 <= i < first_gt(s) ==> s[i] == t[i - 1]);
        }
        if has_gt(s) {
            let w = choose|i: int| 0 <= i < s.len() && s[i] == '>';
            assert(t[w - 1] == '>');
            assert(has_gt(t));
        }
        if has_gt(t) {
            let w = choose|i: int| 0 <= i < t.len() && t[i] == '>';
            assert(s[w + 1] == '>');
        }
    }
}

/// Whether `s` begins with the four characters `<img`.
pub open spec fn starts_img(s: Seq<char>) -> bool {
    s.len() >= 4 && s[0] == '<' && s[1] == 'i' && s[2] == 'm' && s[3] == 'g'
}

/// Rewrite every image tag to end in exactly one `/>`. A tag begins at a
/// literal `<img` and its body runs to the first following `>`; a `/`
/// immediately before that `>` is absorbed, so an already-closed tag is
/// left unchanged.
pub open spec fn fix_img(s: Seq<char>) -> Seq<char>
    decreases s.len(),
    via fix_img_dec
{
    if s.len() == 0 {
        Seq::empty()
    } else if starts_img(s) && has_gt(s.skip(4)) {
        let p = 4 + first_gt(s.skip(4));
        let body_end = if s[p - 1] == '/' {
            p - 1
        } else {
            p
        };
        s.take(body_end) + seq!['/', '>'] + fix_img(s.skip(p + 1))
    } else {
        seq![s[0]] + fix_img(s.drop_first())
    }
}

#[via_fn]
proof fn fix_img_dec(s: Seq<char>) {
    if s.len() != 0 && starts_img(s) && has_gt(s.skip(4)) {
        lemma_first_gt(s.skip(4));
    }
}

/// The full repair pass, as one function over character sequences.
pub open spec fn repair_spec(s: Seq<char>) -> Seq<char> {
    fix_img(replace_all(replace_all(s, nbsp_pat(), seq![' ']), br_pat(), br_rep()))
}

/// The literal `&nbsp;`.
pub open spec fn nbsp_pat() -> Seq<char> {
    seq!['&', 'n', 'b', 's', 'p', ';']
}

/// The literal `<br>`.
pub open spec fn br_pat() -> Seq<char> {
    seq!['<', 'b', 'r', '>']
}

/// The literal `<br/>`.
pub open spec fn br_rep() -> Seq<char> {
    seq!['<', 'b', 'r', '/', '>']
}

/// Whether `pat` occurs at position `i` of `v`.
fn match_at(v: &Vec<char>, i: usize, pat: &Vec<char>) -> (r: bool)
    requires
        i + pat@.len() <= v@.len(),
    ensures
        r == (v@.subrange(i as int, i as int + pat@.len() as int) == pat@),
{
    let n = v.len();
    let m = pat.len();
    let ghost w = v@.subrange(i as int, i as int + m as int);
    let mut j: usize = 0;
    while j < m
        invariant
            0 <= j <= m,
            m == pat@.len(),
            n == v@.len(),
            i + m <= v@.len(),
            w == v@.subrange(i as int, i as int + m as int),
            forall|k: int| 0 <= k < j ==> w[k] == pat@[k],
        decreases m - j,
    {
        if v[i + j] != pat[j] {
            proof {
                assert(w[j as int] == v@[i as int + j as int]);
                assert(w != pat@);
            }
            return false;
        }
        proof {
            assert(w[j as int] == v@[i as int + j as int]);
        }
        j = j + 1;
    }
    proof {
        assert(w =~= pat@);
    }
    true
}

/// Append `v[from..to]` to `out`.
fn push_range(out: &mut Vec<char>, v: &Vec<char>, from: usize, to: usize)
    requires
        from <= to <= v@.len(),
    ensures
        final(out)@ == old(out)@ + v@.subrange(from as int, to as int),
{
    let mut k: usize = from;
    while k < to
        invariant
            from <= k <= to <= v@.len(),
            out@ == old(out)@ + v@.subrange(from as int, k as int),
        decreases to - k,
    {
        out.push(v[k]);
        proof {
            assert(old(out)@ + v@.subrange(from as int, k as int + 1) =~= (old(out)@
                + v@.subrange(from as int, k as int)).push(v@[k as int]));
        }
        k = k + 1;
    }
}

/// Replace every occurrence of `pat` with `rep`, over character vectors.
fn replace_all_chars(v: &Vec<char>, pat: &Vec<char>, rep: &Vec<char>) -> (out: Vec<char>)
    requires
        pat@.len() >= 1,
    ensures
        out@ == replace_all(v@, pat@, rep@),
{
    let n = v.len();
    let m = pat.len();
    let mut out: Vec<char> = Vec::new();
    let mut i: usize = 0;
    proof {
        assert(v@.skip(0) =~= v@);
    }
    while n - i >= m
        invariant
            0 <= i <= n,
            n == v@.len(),
            m == pat@.len(),
            m >= 1,
            replace_all(v@, pat@, rep@) == out@ + replace_all(v@.skip(i as int), pat@, rep@),
        decreases n - i,
    {
        let ghost s = v@.skip(i as int);
        let ghost out0 = out@;
        proof {
            assert(s.len() == n - i);
            assert(s.take(m as int) =~= v@.subrange(i as int, i as int + m as int));
        }
        if match_at(v, i, pat) {
            push_range(&mut out, rep, 0, rep.len());
            proof {
                assert(rep@.subrange(0, rep@.len() as int) =~= rep@);
                assert(s.skip(m as int) =~= v@.skip(i as int + m as int));
                assert(replace_all(s, pat@, rep@) == rep@ + replace_all(
                    v@.skip(i as int + m as int),
                    pat@,
                    rep@,
                ));
                assert(out@ + replace_all(v@.skip(i as int + m as int), pat@, rep@) =~= out0
                    + replace_all(s, pat@, rep@));
            }
            i = i + m;
        } else {
            out.push(v[i]);
            proof {
                assert(s[0] == v@[i as int]);
                assert(s.drop_first() =~= v@.skip(i as int + 1));
                assert(replace_all(s, pat@, rep@) == seq![s[0]] + replace_all(
                    v@.skip(i as int + 1),
                    pat@,
                    rep@,
                ));
                assert(out@ + replace_all(v@.skip(i as int + 1), pat@, rep@) =~= out0
                    + replace_all(s, pat@, rep@));
            }
            i = i + 1;
        }
    }
    let ghost tail = v@.skip(i as int);
    proof {
        assert(tail.len() < m);
        assert(replace_all(tail, pat@, rep@) == tail);
    }
    push_range(&mut out, v, i, n);
    proof {
        assert(v@.subrange(i as int, n as int) =~= tail);
    }
    out
}

/// Rewrite the image tags of `v`, per `fix_img`.
fn fix_img_chars(v: &Vec<char>) -> (out: Vec<char>)
    ensures
        out@ == fix_img(v@),
{
    let n = v.len();
    let mut out: Vec<char> = Vec::new();
    let mut i: usize = 0;
    proof {
        assert(v@.skip(0) =~= v@);
    }
    while i < n
        invariant
            0 <= i <= n,
            n == v@.len(),
            fix_img(v@) == out@ + fix_img(v@.skip(i as int)),
        decreases n - i,
    {
        let ghost s = v@.skip(i as int);
        let ghost out0 = out@;
        proof {
            assert(s.len() == n - i);
            assert(forall|k: int| 0 <= k < s.len() ==> s[k] == v@[i as int + k]);
        }
        let is_img = n - i >= 4 && v[i] == '<' && v[i + 1] == 'i' && v[i + 2] == 'm' && v[i + 3]
            == 'g';
        proof {
            assert(is_img == starts_img(s));
        }
        let mut handled = false;
        if is_img {
            // scan for the first `>` after the tag opening
            let ghost s4 = v@.skip(i as int + 4);
            proof {
                assert(s.skip(4) =~= s4);
            }
            let mut j: usize = i + 4;
            while j < n && v[j] != '>'
                invariant
                    i + 4 <= j <= n,
                    n == v@.len(),
                    s4 == v@.skip(i as int + 4),
                    first_gt(s4) == (j - i - 4) + first_gt(v@.skip(j as int)),
                    forall|k: int| i + 4 <= k < j ==> v@[k] != '>',
                decreases n - j,
            {
                proof {
                    let sj = v@.skip(j as int);
                    assert(sj[0] == v@[j as int]);
                    assert(sj.drop_first() =~= v@.skip(j as int + 1));
                }
                j = j + 1;
            }
            proof {
                let sj = v@.skip(j as int);
                if j < n {
                    assert(sj[0] == v@[j as int]);
                    assert(first_gt(sj) == 0);
                } else {
                    assert(sj.len() == 0);
                }
                lemma_first_gt(s4);
            }
            if j < n {
                // found the tag close: emit the body and exactly one `/>`
                proof {
                    assert(has_gt(s4)) by {
                        assert(s4[j - i - 4] == v@[j as int]);
                    }
                    assert(4 + first_gt(s.skip(4)) == j - i);
                }
                let body_end: usize = if v[j - 1] == '/' {
                    j - 1
                } else {
                    j
                };
                proof {
                    assert(s[j - i - 1] == v@[j as int - 1]);
                    assert(s.take(body_end as int - i) =~= v@.subrange(
                        i as int,
                        body_end as int,
                    ));
                }
                push_range(&mut out, v, i, body_end);
                out.push('/');
                out.push('>');
                proof {
                    let p = j - i;
                    assert(fix_img(s) == s.take(body_end as int - i) + seq!['/', '>'] + fix_img(
                        s.skip(p + 1),
                    ));
                    assert(s.skip(p + 1) =~= v@.skip(j as int + 1));
                    assert(out@ + fix_img(v@.skip(j as int + 1)) =~= out0 + fix_img(s));
                }
                i = j + 1;
                handled = true;
            } else {
                proof {
                    assert(!has_gt(s4)) by {
                        if has_gt(s4) {
                            let w = choose|k: int| 0 <= k < s4.len() && s4[k] == '>';
                            assert(v@[i as int + 4 + w] == '>');
                        }
                    }
                }
            }
        }
        if !handled {
            out.push(v[i]);
            proof {
                assert(s[0] == v@[i as int]);
                assert(s.drop_first() =~= v@.skip(i as int + 1));
                assert(fix_img(s) == seq![s[0]] + fix_img(v@.skip(i as int + 1)));
                assert(out@ + fix_img(v@.skip(i as int + 1)) =~= out0 + fix_img(s));
            }
            i = i + 1;
        }
    }
    proof {
        assert(v@.skip(n as int) =~= Seq::<char>::empty());
    }
    out
}

/// Rewrite every image tag of `s` to end in exactly one `/>`.
pub fn fix_img_tags(s: &str) -> (r: String)
    ensures
        r@ == fix_img(s@),
{
    let v = str_chars(s);
    let out = fix_img_chars(&v);
    chars_to_string(&out)
}

/// The full markup repair: `&nbsp;` to space, `<br>` to `<br/>`, and image
/// tags closed with exactly one `/>`.
pub fn repair_markup(s: &str) -> (r: String)
    ensures
        r@ == repair_spec(s@),
{
    let v = str_chars(s);
    let mut nbsp: Vec<char> = Vec::new();
    nbsp.push('&');
    nbsp.push('n');
    nbsp.push('b');
    nbsp.push('s');
    nbsp.push('p');
    nbsp.push(';');
    let mut space: Vec<char> = Vec::new();
    space.push(' ');
    let mut br: Vec<char> = Vec::new();
    br.push('<');
    br.push('b');
    br.push('r');
    br.push('>');
    let mut brs: Vec<char> = Vec::new();
    brs.push('<');
    brs.push('b');
    brs.push('r');
    brs.push('/');
    brs.push('>');
    proof {
        assert(nbsp@ =~= nbsp_pat());
        assert(space@ =~= seq![' ']);
        assert(br@ =~= br_pat());
        assert(brs@ =~= br_rep());
    }
    let step1 = replace_all_chars(&v, &nbsp, &space);
    let step2 = replace_all_chars(&step1, &br, &brs);
    let out = fix_img_chars(&step2);
    chars_to_string(&out)
}

} // verus!
