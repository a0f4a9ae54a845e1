//! Extraction of structured quiz records from loosely-authored markup.
//!
//! The library covers the pure core of the pipeline: a markup-repair pass
//! that makes tolerant real-world markup safe for a strict structural
//! parser, a text normalizer shared by titles and answer choices, and the
//! single-pass extractor that walks a parsed node tree and assembles
//! `Question` records. Parsing itself, rendering, and all I/O are left to
//! the surrounding application.

use vstd::prelude::*;
use vstd::string::StrSliceExecFns;

pub mod dom;
pub mod extract;
pub mod normalize;
pub mod repair;
pub mod repair_laws;

verus! {

/// Whether `c` is a whitespace character as normalization counts them:
/// Unicode's White_Space set — the ASCII whitespace characters plus the
/// next line, no-break, ogham, fixed-width, line and paragraph separator,
/// narrow no-break, mathematical and ideographic space characters.
pub open spec fn is_space(c: char) -> bool {
    c == ' ' || c == '\t' || c == '\n' || c == '\r' || c == '\u{b}' || c == '\u{c}' || c
        == '\u{85}' || c == '\u{a0}' || c == '\u{1680}' || ('\u{2000}' <= c && c <= '\u{200a}')
        || c == '\u{2028}' || c == '\u{2029}' || c == '\u{202f}' || c == '\u{205f}' || c
        == '\u{3000}'
}

/// Executable mirror of `is_space`.
pub fn space_char(c: char) -> (r: bool)
    ensures
        r == is_space(c),
{
    c == ' ' || c == '\t' || c == '\n' || c == '\r' || c == '\u{b}' || c == '\u{c}' || c
        == '\u{85}' || c == '\u{a0}' || c == '\u{1680}' || ('\u{2000}' <= c && c <= '\u{200a}')
        || c == '\u{2028}' || c == '\u{2029}' || c == '\u{202f}' || c == '\u{205f}' || c
        == '\u{3000}'
}

/// The characters of `s`, in order, as a vector.
pub fn str_chars(s: &str) -> (v: Vec<char>)
    ensures
        v@ == s@,
{
    let n = s.unicode_len();
    let mut v: Vec<char> = Vec::new();
    let mut i: usize = 0;
    while i < n
        invariant
            0 <= i <= n,
            n == s@.len(),
            v@ == s@.take(i as int),
        decreases n - i,
    {
        let c = s.get_char(i);
        v.push(c);
        proof {
            assert(v@ =~= s@.take(i as int + 1));
        }
        i = i + 1;
    }
    proof {
        assert(s@.take(n as int) =~= s@);
    }
    v
}

/// Whether two string slices hold the same characters.
pub fn str_eq(a: &str, b: &str) -> (r: bool)
    ensures
        r == (a@ == b@),
{
    let n = a.unicode_len();
    let m = b.unicode_len();
    if n != m {
        return false;
    }
    let mut i: usize = 0;
    while i < n
        invariant
            0 <= i <= n,
            n == a@.len(),
            n == b@.len(),
            forall|k: int| 0 <= k < i ==> a@[k] == b@[k],
        decreases n - i,
    {
        if a.get_char(i) != b.get_char(i) {
            return false;
        }
        i = i + 1;
    }
    proof {
        assert(a@ =~= b@);
    }
    true
}

/// Relies on `String: FromIterator<char>`: collecting chars yields the
/// string holding exactly those characters in order.
#[verifier::external_body]
pub fn chars_to_string(v: &Vec<char>) -> (r: String)
    ensures
        r@ == v@,
{
    v.iter().collect()
}

/// The suffix of `s` after its last `/`; all of `s` when it has none.
pub open spec fn image_name_of(s: Seq<char>) -> Seq<char>
    decreases s.len(),
{
    if s.len() == 0 {
        s
    } else if s.last() == '/' {
        Seq::empty()
    } else {
        image_name_of(s.drop_last()) + seq![s.last()]
    }
}

/// The file name an image reference maps to in the local cache: the part
/// of the reference after its last `/`, or the whole reference when it has
/// none.
pub fn extract_image_name(url: &str) -> (r: String)
    ensures
        r@ == image_name_of(url@),
{
    let v = str_chars(url);
    let n = v.len();
    let mut k: usize = n;
    proof {
        assert(v@.skip(n as int) =~= Seq::<char>::empty());
        assert(image_name_of(v@.take(n as int)) + v@.skip(n as int) =~= image_name_of(v@)) by {
            assert(v@.take(n as int) =~= v@);
        }
    }
    while k > 0 && v[k - 1] != '/'
        invariant
            0 <= k <= n,
            n == v@.len(),
            image_name_of(v@) == image_name_of(v@.take(k as int)) + v@.skip(k as int),
        decreases k,
    {
        proof {
            let w = v@.take(k as int);
            assert(w.last() == v@[k as int - 1]);
            assert(w.drop_last() =~= v@.take(k as int - 1));
            assert(image_name_of(w) == image_name_of(w.drop_last()) + seq![w.last()]);
            assert(image_name_of(v@.take(k as int - 1)) + v@.skip(k as int - 1) =~= image_name_of(
                v@.take(k as int - 1),
            ) + seq![w.last()] + v@.skip(k as int));
        }
        k = k - 1;
    }
    proof {
        let w = v@.take(k as int);
        if k > 0 {
            assert(w.last() == v@[k as int - 1]);
            assert(image_name_of(w) =~= Seq::<char>::empty());
        } else {
            assert(w =~= Seq::<char>::empty());
        }
        assert(image_name_of(v@) == v@.skip(k as int));
    }
    let mut out: Vec<char> = Vec::new();
    let mut t: usize = k;
    while t < n
        invariant
            k <= t <= n,
            n == v@.len(),
            out@ == v@.subrange(k as int, t as int),
        decreases n - t,
    {
        out.push(v[t]);
        proof {
            assert(v@.subrange(k as int, t as int + 1) =~= v@.subrange(k as int, t as int).push(
                v@[t as int],
            ));
        }
        t = t + 1;
    }
    proof {
        assert(v@.subrange(k as int, n as int) =~= v@.skip(k as int));
    }
    chars_to_string(&out)
}

} // verus!
