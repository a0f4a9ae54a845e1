//! The question extractor: a single forward pass over the top-level
//! children of a parsed document that assembles `Question` records.
//!
//! The pass scans for a marker paragraph (the question prompt), looks ahead
//! for either an image container or an answer paragraph, resolves the image
//! reference when one is present, and collects the answer choices from the
//! answer paragraph's children. Extraction is all-or-nothing: any missing
//! structural expectation aborts with an error and no partial result.

use vstd::prelude::*;
use crate::dom::DomNode;
use crate::dom::DomElement;
use crate::dom::attr_of;
use crate::dom::elem_text;
use crate::dom::child_strings;
use crate::dom::join_sp;
use crate::dom::element_text;
use crate::dom::children_joined_text;
use crate::normalize::norm_title;
use crate::normalize::collapsed;
use crate::normalize::lemma_normalization_collapsed;
use crate::normalize::norm_answer;
use crate::normalize::normalize_question_title;
use crate::normalize::normalize_answer_text;
use crate::str_eq;
use vstd::pervasive::unreached;

verus! {

/// One answer choice: its normalized text, and whether it was emphasized
/// (bold), which marks it as the correct choice.
#[derive(Debug, Clone, PartialEq, Eq)]
pub struct AnswerChoice {
    pub text: String,
    pub is_answer: bool,
}

/// The abstract value of an `AnswerChoice`.
pub struct AnswerChoiceView {
    pub text: Seq<char>,
    pub is_answer: bool,
}

impl View for AnswerChoice {
    type V = AnswerChoiceView;

    open spec fn view(&self) -> AnswerChoiceView {
        AnswerChoiceView { text: self.text@, is_answer: self.is_answer }
    }
}

/// One extracted question: normalized title, optional image reference, and
/// the answer choices in document order.
#[derive(Debug, Clone, PartialEq, Eq)]
pub struct Question {
    pub title: String,
    pub img_src: Option<String>,
    pub answer_choices: Vec<AnswerChoice>,
}

/// The abstract value of a `Question`.
pub struct QuestionView {
    pub title: Seq<char>,
    pub img_src: Option<Seq<char>>,
    pub answer_choices: Seq<AnswerChoiceView>,
}

/// The views of a sequence of answer choices.
pub open spec fn acs_view(s: Seq<AnswerChoice>) -> Seq<AnswerChoiceView> {
    s.map_values(|c: AnswerChoice| c@)
}

/// The views of a sequence of questions.
pub open spec fn qs_view(s: Seq<Question>) -> Seq<QuestionView> {
    s.map_values(|q: Question| q@)
}

impl View for Question {
    type V = QuestionView;

    open spec fn view(&self) -> QuestionView {
        QuestionView {
            title: self.title@,
            img_src: match self.img_src {
                Some(s) => Some(s@),
                None => None,
            },
            answer_choices: acs_view(self.answer_choices@),
        }
    }
}

/// Why an extraction failed: each variant names the structural expectation
/// that was violated.
#[derive(Debug, Clone, Copy, PartialEq, Eq)]
pub enum ExtractError {
    /// The cursor was exhausted before an image container or paragraph
    /// followed a question marker.
    NoElementAfterTitle,
    /// An image container had no `figure` child.
    MissingFigure,
    /// A `figure` had no `img` child.
    MissingImg,
    /// An `img` had no `src` attribute.
    MissingSrc,
    /// The cursor was exhausted before a paragraph followed an image
    /// container.
    NoParagraphAfterImage,
}

/// The element inside an element node; meaningless for a text node.
pub open spec fn elem_of(n: DomNode) -> DomElement {
    match n {
        DomNode::Element(e) => e,
        DomNode::Text(_) => vstd::pervasive::arbitrary(),
    }
}

/// A question marker: a paragraph whose class attribute equals the marker
/// class exactly.
pub open spec fn is_marker(n: DomNode, qc: Seq<char>) -> bool {
    match n {
        DomNode::Element(e) => e.name@ == "p"@ && attr_of(e.attrs@, "class"@) == Some(qc),
        DomNode::Text(_) => false,
    }
}

/// An image container: a `div` whose class attribute equals the image
/// marker class exactly.
pub open spec fn is_image_container(n: DomNode, ic: Seq<char>) -> bool {
    match n {
        DomNode::Element(e) => e.name@ == "div"@ && attr_of(e.attrs@, "class"@) == Some(ic),
        DomNode::Text(_) => false,
    }
}

/// Any paragraph element.
pub open spec fn is_paragraph(n: DomNode) -> bool {
    match n {
        DomNode::Element(e) => e.name@ == "p"@,
        DomNode::Text(_) => false,
    }
}

/// A node that can follow a marker as the question body: an image
/// container or a paragraph.
pub open spec fn is_body_node(n: DomNode, ic: Seq<char>) -> bool {
    is_image_container(n, ic) || is_paragraph(n)
}

/// The first direct element child of `ns` with tag `name`, if any.
pub open spec fn first_child_named(ns: Seq<DomNode>, name: Seq<char>) -> Option<DomElement>
    decreases ns.len(),
{
    if ns.len() == 0 {
        None
    } else {
        match ns[0] {
            DomNode::Element(e) => if e.name@ == name {
                Some(e)
            } else {
                first_child_named(ns.drop_first(), name)
            },
            DomNode::Text(_) => first_child_named(ns.drop_first(), name),
        }
    }
}

/// The image reference of an image container: its `figure` child's `img`
/// child's `src` attribute, or the error naming what is missing.
pub open spec fn image_src_of(e: DomElement) -> Result<Seq<char>, ExtractError> {
    match first_child_named(e.children@, "figure"@) {
        None => Err(ExtractError::MissingFigure),
        Some(fig) => match first_child_named(fig.children@, "img"@) {
            None => Err(ExtractError::MissingImg),
            Some(img) => match attr_of(img.attrs@, "src"@) {
                None => Err(ExtractError::MissingSrc),
                Some(src) => Ok(src),
            },
        },
    }
}

/// The normalized title a marker element yields.
pub open spec fn title_of(e: DomElement) -> Seq<char> {
    norm_title(join_sp(child_strings(e.children@)))
}

/// The answer choices one child of an answer paragraph yields: a bold
/// element yields a correct choice with its joined text, a text node a
/// plain choice with its raw content; anything else, and any choice whose
/// normalized text is empty, yields nothing.
pub open spec fn choice_of(n: DomNode) -> Seq<AnswerChoiceView> {
    match n {
        DomNode::Text(t) => {
            let txt = norm_answer(t@);
            if txt.len() == 0 {
                Seq::empty()
            } else {
                seq![AnswerChoiceView { text: txt, is_answer: false }]
            }
        },
        DomNode::Element(e) => {
            if e.name@ == "strong"@ {
                let txt = norm_answer(elem_text(e));
                if txt.len() == 0 {
                    Seq::empty()
                } else {
                    seq![AnswerChoiceView { text: txt, is_answer: true }]
                }
            } else {
                Seq::empty()
            }
        },
    }
}

/// The answer choices an answer paragraph's children yield, in order.
pub open spec fn choices_of(ns: Seq<DomNode>) -> Seq<AnswerChoiceView>
    decreases ns.len(),
{
    if ns.len() == 0 {
        Seq::empty()
    } else {
        choice_of(ns[0]) + choices_of(ns.drop_first())
    }
}

/// Index of the first marker in `ns`, or `ns.len()` if there is none.
pub open spec fn find_marker(ns: Seq<DomNode>, qc: Seq<char>) -> int
    decreases ns.len(),
{
    if ns.len() == 0 {
        0
    } else if is_marker(ns[0], qc) {
        0
    } else {
        1 + find_marker(ns.drop_first(), qc)
    }
}

/// Index of the first body node in `ns`, or `ns.len()` if there is none.
pub open spec fn find_body(ns: Seq<DomNode>, ic: Seq<char>) -> int
    decreases ns.len(),
{
    if ns.len() == 0 {
        0
    } else if is_body_node(ns[0], ic) {
        0
    } else {
        1 + find_body(ns.drop_first(), ic)
    }
}

/// Index of the first paragraph in `ns`, or `ns.len()` if there is none.
pub open spec fn find_para(ns: Seq<DomNode>) -> int
    decreases ns.len(),
{
    if ns.len() == 0 {
        0
    } else if is_paragraph(ns[0]) {
        0
    } else {
        1 + find_para(ns.drop_first())
    }
}

proof fn lemma_find_marker(ns: Seq<DomNode>, qc: Seq<char>)
    ensures
        0 <= find_marker(ns, qc) <= ns.len(),
        find_marker(ns, qc) < ns.len() ==> is_marker(ns[find_marker(ns, qc)], qc),
    decreases ns.len(),
{
    if ns.len() == 0 {
    } else if is_marker(ns[0], qc) {
    } else {
        lemma_find_marker(ns.drop_first(), qc);
    }
}

proof fn lemma_find_body(ns: Seq<DomNode>, ic: Seq<char>)
    ensures
        0 <= find_body(ns, ic) <= ns.len(),
        find_body(ns, ic) < ns.len() ==> is_body_node(ns[find_body(ns, ic)], ic),
    decreases ns.len(),
{
    if ns.len() == 0 {
    } else if is_body_node(ns[0], ic) {
    } else {
        lemma_find_body(ns.drop_first(), ic);
    }
}

proof fn lemma_find_para(ns: Seq<DomNode>)
    ensures
        0 <= find_para(ns) <= ns.len(),
        find_para(ns) < ns.len() ==> is_paragraph(ns[find_para(ns)]),
    decreases ns.len(),
{
    if ns.len() == 0 {
    } else if is_paragraph(ns[0]) {
    } else {
        lemma_find_para(ns.drop_first());
    }
}

/// Prefix a question onto an extraction result; an error passes through.
pub open spec fn combine(q: QuestionView, r: Result<Seq<QuestionView>, ExtractError>) -> Result<
    Seq<QuestionView>,
    ExtractError,
> {
    match r {
        Ok(t) => Ok(seq![q] + t),
        Err(e) => Err(e),
    }
}

/// The ordered questions extracted from the node sequence `ns`, given the
/// marker class `qc` and the image-container class `ic`; or the first
/// structural error met, with no partial result.
pub open spec fn extract_from(ns: Seq<DomNode>, qc: Seq<char>, ic: Seq<char>) -> Result<
    Seq<QuestionView>,
    ExtractError,
>
    decreases ns.len(),
    via extract_from_dec
{
    let m = find_marker(ns, qc);
    if m >= ns.len() {
        Ok(Seq::empty())
    } else {
        let title = title_of(elem_of(ns[m]));
        let rest1 = ns.skip(m + 1);
        let b = find_body(rest1, ic);
        if b >= rest1.len() {
            Err(ExtractError::NoElementAfterTitle)
        } else if is_image_container(rest1[b], ic) {
            match image_src_of(elem_of(rest1[b])) {
                Err(er) => Err(er),
                Ok(src) => {
                    let rest2 = rest1.skip(b + 1);
                    let p = find_para(rest2);
                    if p >= rest2.len() {
                        Err(ExtractError::NoParagraphAfterImage)
                    } else {
                        let q = QuestionView {
                            title: title,
                            img_src: Some(src),
                            answer_choices: choices_of(elem_of(rest2[p]).children@),
                        };
                        combine(q, extract_from(rest2.skip(p + 1), qc, ic))
                    }
                },
            }
        } else {
            let q = QuestionView {
                title: title,
                img_src: None,
                answer_choices: choices_of(elem_of(rest1[b]).children@),
            };
            combine(q, extract_from(rest1.skip(b + 1), qc, ic))
        }
    }
}

#[via_fn]
proof fn extract_from_dec(ns: Seq<DomNode>, qc: Seq<char>, ic: Seq<char>) {
    lemma_find_marker(ns, qc);
    let m = find_marker(ns, qc);
    if m < ns.len() {
        let rest1 = ns.skip(m + 1);
        lemma_find_body(rest1, ic);
        let b = find_body(rest1, ic);
        if b < rest1.len() {
            let rest2 = rest1.skip(b + 1);
            lemma_find_para(rest2);
        }
    }
}

/// Prefix already-extracted questions onto the result for the remaining
/// nodes; an error passes through.
pub open spec fn prepend(qs: Seq<QuestionView>, r: Result<Seq<QuestionView>, ExtractError>)
    -> Result<Seq<QuestionView>, ExtractError> {
    match r {
        Ok(t) => Ok(qs + t),
        Err(e) => Err(e),
    }
}

proof fn lemma_prepend_combine(
    qs: Seq<QuestionView>,
    q: QuestionView,
    r: Result<Seq<QuestionView>, ExtractError>,
)
    ensures
        prepend(qs.push(q), r) == prepend(qs, combine(q, r)),
{
    match r {
        Ok(t) => {
            assert(qs.push(q) + t =~= qs + (seq![q] + t));
        },
        Err(_) => {},
    }
}

/// Skipping a node that is not a marker does not change the extraction.
proof fn lemma_extract_step(s: Seq<DomNode>, qc: Seq<char>, ic: Seq<char>)
    requires
        s.len() > 0,
        !is_marker(s[0], qc),
    ensures
        extract_from(s, qc, ic) == extract_from(s.drop_first(), qc, ic),
{
    let s2 = s.drop_first();
    lemma_find_marker(s, qc);
    lemma_find_marker(s2, qc);
    let m = find_marker(s, qc);
    assert(m == 1 + find_marker(s2, qc));
    if m < s.len() {
        assert(s[m] == s2[m - 1]);
        assert(s.skip(m + 1) =~= s2.skip(m - 1 + 1));
    }
}

/// Whether `n` is a question marker for class `qc`.
fn is_marker_exec(n: &DomNode, qc: &str) -> (r: bool)
    ensures
        r == is_marker(*n, qc@),
{
    match n {
        DomNode::Element(e) => {
            if !str_eq(e.name.as_str(), "p") {
                return false;
            }
            match attr_get(&e.attrs, "class") {
                Some(v) => str_eq(v.as_str(), qc),
                None => false,
            }
        },
        DomNode::Text(_) => false,
    }
}

/// Whether `n` is an image container for class `ic`.
fn is_image_container_exec(n: &DomNode, ic: &str) -> (r: bool)
    ensures
        r == is_image_container(*n, ic@),
{
    match n {
        DomNode::Element(e) => {
            if !str_eq(e.name.as_str(), "div") {
                return false;
            }
            match attr_get(&e.attrs, "class") {
                Some(v) => str_eq(v.as_str(), ic),
                None => false,
            }
        },
        DomNode::Text(_) => false,
    }
}

/// Whether `n` is a paragraph element.
fn is_paragraph_exec(n: &DomNode) -> (r: bool)
    ensures
        r == is_paragraph(*n),
{
    match n {
        DomNode::Element(e) => str_eq(e.name.as_str(), "p"),
        DomNode::Text(_) => false,
    }
}

/// Whether `n` can serve as the question body after a marker.
fn is_body_exec(n: &DomNode, ic: &str) -> (r: bool)
    ensures
        r == is_body_node(*n, ic@),
{
    let b1 = is_image_container_exec(n, ic);
    let b2 = is_paragraph_exec(n);
    b1 || b2
}

/// Value of the first attribute named `name`, if any.
fn attr_get(attrs: &Vec<(String, String)>, name: &str) -> (r: Option<String>)
    ensures
        match r {
            Some(v) => attr_of(attrs@, name@) == Some(v@),
            None => attr_of(attrs@, name@) is None,
        },
{
    let k = attrs.len();
    let mut i: usize = 0;
    proof {
        assert(attrs@.skip(0) =~= attrs@);
    }
    while i < k
        invariant
            0 <= i <= k,
            k == attrs@.len(),
            attr_of(attrs@, name@) == attr_of(attrs@.skip(i as int), name@),
        decreases k - i,
    {
        let ghost s = attrs@.skip(i as int);
        proof {
            assert(s[0] == attrs@[i as int]);
            assert(s.drop_first() =~= attrs@.skip(i as int + 1));
        }
        if str_eq(attrs[i].0.as_str(), name) {
            return Some(attrs[i].1.clone());
        }
        i = i + 1;
    }
    proof {
        assert(attrs@.skip(k as int).len() == 0);
    }
    None
}

/// The first direct element child of `e` with tag `name`, if any.
fn get_child<'a>(e: &'a DomElement, name: &str) -> (r: Option<&'a DomElement>)
    ensures
        match r {
            Some(c) => first_child_named(e.children@, name@) == Some(*c),
            None => first_child_named(e.children@, name@) is None,
        },
{
    let k = e.children.len();
    let mut i: usize = 0;
    proof {
        assert(e.children@.skip(0) =~= e.children@);
    }
    while i < k
        invariant
            0 <= i <= k,
            k == e.children@.len(),
            first_child_named(e.children@, name@) == first_child_named(
                e.children@.skip(i as int),
                name@,
            ),
        decreases k - i,
    {
        let ghost s = e.children@.skip(i as int);
        proof {
            assert(s[0] == e.children@[i as int]);
            assert(s.drop_first() =~= e.children@.skip(i as int + 1));
        }
        match &e.children[i] {
            DomNode::Element(ce) => {
                if str_eq(ce.name.as_str(), name) {
                    return Some(ce);
                }
            },
            DomNode::Text(_) => {},
        }
        i = i + 1;
    }
    proof {
        assert(e.children@.skip(k as int).len() == 0);
    }
    None
}

proof fn lemma_choices_push(ns: Seq<DomNode>, x: DomNode)
    ensures
        choices_of(ns.push(x)) == choices_of(ns) + choice_of(x),
    decreases ns.len(),
{
    reveal_with_fuel(choices_of, 3);
    if ns.len() == 0 {
        assert(ns.push(x)[0] == x);
        assert(ns.push(x).drop_first() =~= Seq::<DomNode>::empty());
        assert(choices_of(ns.push(x)) =~= choice_of(x));
        assert(choices_of(ns) + choice_of(x) =~= choice_of(x));
    } else {
        assert(ns.push(x).drop_first() =~= ns.drop_first().push(x));
        assert(ns.push(x)[0] == ns[0]);
        lemma_choices_push(ns.drop_first(), x);
        assert(choice_of(ns[0]) + (choices_of(ns.drop_first()) + choice_of(x)) =~= (choice_of(
            ns[0],
        ) + choices_of(ns.drop_first())) + choice_of(x));
    }
}

/// The answer choices of an answer paragraph, per `choices_of`.
fn collect_choices(e: &DomElement) -> (r: Vec<AnswerChoice>)
    ensures
        acs_view(r@) == choices_of(e.children@),
{
    let mut acs: Vec<AnswerChoice> = Vec::new();
    let k = e.children.len();
    let mut i: usize = 0;
    proof {
        assert(e.children@.take(0) =~= Seq::<DomNode>::empty());
        assert(acs_view(acs@) =~= choices_of(e.children@.take(0)));
    }
    while i < k
        invariant
            0 <= i <= k,
            k == e.children@.len(),
            acs_view(acs@) == choices_of(e.children@.take(i as int)),
        decreases k - i,
    {
        let ghost before = acs@;
        match &e.children[i] {
            DomNode::Text(t) => {
                let txt = normalize_answer_text(t.as_str());
                if !txt.as_str().is_empty() {
                    let c = AnswerChoice { text: txt, is_answer: false };
                    acs.push(c);
                    proof {
                        assert(acs_view(acs@) =~= acs_view(before).push(acs@.last()@));
                    }
                }
            },
            DomNode::Element(ce) => {
                if str_eq(ce.name.as_str(), "strong") {
                    let raw = element_text(ce);
                    let txt = normalize_answer_text(raw.as_str());
                    if !txt.as_str().is_empty() {
                        let c = AnswerChoice { text: txt, is_answer: true };
                        acs.push(c);
                        proof {
                            assert(acs_view(acs@) =~= acs_view(before).push(acs@.last()@));
                        }
                    }
                }
            },
        }
        proof {
            lemma_choices_push(e.children@.take(i as int), e.children@[i as int]);
            assert(e.children@.take(i as int).push(e.children@[i as int]) =~= e.children@.take(
                i as int + 1,
            ));
            assert(acs_view(acs@) =~= choices_of(e.children@.take(i as int + 1)));
        }
        i = i + 1;
    }
    proof {
        assert(e.children@.take(k as int) =~= e.children@);
    }
    acs
}

/// Extract every question from the top-level children of `root`, in
/// document order. `question_class` is the class attribute that marks a
/// prompt paragraph; `image_class` the class that marks an image container.
/// Returns the questions exactly as `extract_from` describes them, or its
/// first structural error with no partial result.
pub fn parse_questions(root: &DomElement, question_class: &str, image_class: &str) -> (r: Result<
    Vec<Question>,
    ExtractError,
>)
    ensures
        match r {
            Ok(qs) => extract_from(root.children@, question_class@, image_class@) == Ok::<
                _,
                ExtractError,
            >(qs_view(qs@)),
            Err(e) => extract_from(root.children@, question_class@, image_class@) == Err::<
                Seq<QuestionView>,
                _,
            >(e),
        },
{
    let ns = &root.children;
    let n = ns.len();
    let ghost full = root.children@;
    let ghost qc = question_class@;
    let ghost ic = image_class@;
    let mut qs: Vec<Question> = Vec::new();
    let mut i: usize = 0;
    proof {
        assert(full.skip(0) =~= full);
        assert(qs_view(qs@) =~= Seq::<QuestionView>::empty());
        assert(prepend(qs_view(qs@), extract_from(full, qc, ic)) == extract_from(full, qc, ic));
    }
    while i < n
        invariant
            0 <= i <= n,
            n == full.len(),
            full == root.children@,
            ns@ == full,
            qc == question_class@,
            ic == image_class@,
            prepend(qs_view(qs@), extract_from(full.skip(i as int), qc, ic)) == extract_from(
                full,
                qc,
                ic,
            ),
        decreases n - i,
    {
        let ghost s = full.skip(i as int);
        proof {
            assert(s[0] == full[i as int]);
            assert(s.drop_first() =~= full.skip(i as int + 1));
        }
        if !is_marker_exec(&ns[i], question_class) {
            proof {
                lemma_extract_step(s, qc, ic);
            }
            i = i + 1;
            continue;
        }
        // a marker: the question prompt starts here
        let marker = match &ns[i] {
            DomNode::Element(e) => e,
            DomNode::Text(_) => {
                proof {
                    assert(false);
                }
                unreached()
            },
        };
        proof {
            assert(find_marker(s, qc) == 0);
            assert(elem_of(s[0]) == *marker);
        }
        let joined = children_joined_text(marker);
        let title = normalize_question_title(joined.as_str());
        let ghost rest1 = s.skip(1);
        proof {
            assert(rest1 =~= full.skip(i as int + 1));
        }
        // look ahead for the question body: an image container or paragraph
        let mut j: usize = i + 1;
        while j < n && !is_body_exec(&ns[j], image_class)
            invariant
                i + 1 <= j <= n,
                n == full.len(),
                full == root.children@,
                ns@ == full,
                ic == image_class@,
                find_body(full.skip(i as int + 1), ic) == j - i - 1 + find_body(
                    full.skip(j as int),
                    ic,
                ),
            decreases n - j,
        {
            proof {
                let sj = full.skip(j as int);
                assert(sj[0] == full[j as int]);
                assert(sj.drop_first() =~= full.skip(j as int + 1));
            }
            j = j + 1;
        }
        proof {
            lemma_find_body(full.skip(i as int + 1), ic);
            if j == n {
                assert(full.skip(j as int).len() == 0);
                assert(find_body(full.skip(i as int + 1), ic) == rest1.len());
            } else {
                let sj = full.skip(j as int);
                assert(sj[0] == full[j as int]);
                assert(find_body(sj, ic) == 0);
            }
        }
        if j == n {
            proof {
                assert(extract_from(s, qc, ic) == Err::<Seq<QuestionView>, _>(
                    ExtractError::NoElementAfterTitle,
                ));
            }
            return Err(ExtractError::NoElementAfterTitle);
        }
        proof {
            assert(find_body(rest1, ic) == j - i - 1);
            assert(rest1[j - i - 1] == full[j as int]);
        }
        if is_image_container_exec(&ns[j], image_class) {
            // image branch: resolve figure > img[src], then find the
            // answer paragraph past the container
            let container = match &ns[j] {
                DomNode::Element(e) => e,
                DomNode::Text(_) => {
                    proof {
                        assert(false);
                    }
                    unreached()
                },
            };
            proof {
                assert(elem_of(rest1[j - i - 1]) == *container);
            }
            let fig = match get_child(container, "figure") {
                Some(f) => f,
                None => {
                    proof {
                        assert(extract_from(s, qc, ic) == Err::<Seq<QuestionView>, _>(
                            ExtractError::MissingFigure,
                        ));
                    }
                    return Err(ExtractError::MissingFigure);
                },
            };
            let img = match get_child(fig, "img") {
                Some(g) => g,
                None => {
                    proof {
                        assert(extract_from(s, qc, ic) == Err::<Seq<QuestionView>, _>(
                            ExtractError::MissingImg,
                        ));
                    }
                    return Err(ExtractError::MissingImg);
                },
            };
            let src = match attr_get(&img.attrs, "src") {
                Some(v) => v,
                None => {
                    proof {
                        assert(extract_from(s, qc, ic) == Err::<Seq<QuestionView>, _>(
                            ExtractError::MissingSrc,
                        ));
                    }
                    return Err(ExtractError::MissingSrc);
                },
            };
            proof {
                assert(image_src_of(*container) == Ok::<_, ExtractError>(src@));
            }
            let ghost rest2 = rest1.skip(j - i - 1 + 1);
            proof {
                assert(rest2 =~= full.skip(j as int + 1));
            }
            // find the answer paragraph after the image container
            let mut t: usize = j + 1;
            while t < n && !is_paragraph_exec(&ns[t])
                invariant
                    j + 1 <= t <= n,
                    n == full.len(),
                    full == root.children@,
                    ns@ == full,
                    find_para(full.skip(j as int + 1)) == t - j - 1 + find_para(
                        full.skip(t as int),
                    ),
                decreases n - t,
            {
                proof {
                    let st = full.skip(t as int);
                    assert(st[0] == full[t as int]);
                    assert(st.drop_first() =~= full.skip(t as int + 1));
                }
                t = t + 1;
            }
            proof {
                lemma_find_para(full.skip(j as int + 1));
                if t == n {
                    assert(full.skip(t as int).len() == 0);
                } else {
                    let st = full.skip(t as int);
                    assert(st[0] == full[t as int]);
                    assert(find_para(st) == 0);
                }
            }
            if t == n {
                proof {
                    assert(find_para(rest2) == rest2.len());
                    assert(extract_from(s, qc, ic) == Err::<Seq<QuestionView>, _>(
                        ExtractError::NoParagraphAfterImage,
                    ));
                }
                return Err(ExtractError::NoParagraphAfterImage);
            }
            proof {
                assert(find_para(rest2) == t - j - 1);
                assert(rest2[t - j - 1] == full[t as int]);
            }
            let para = match &ns[t] {
                DomNode::Element(e) => e,
                DomNode::Text(_) => {
                    proof {
                        assert(false);
                    }
                    unreached()
                },
            };
            proof {
                assert(elem_of(rest2[t - j - 1]) == *para);
            }
            let acs = collect_choices(para);
            let q = Question { title: title, img_src: Some(src), answer_choices: acs };
            let ghost qv = q@;
            let ghost qs0 = qs@;
            qs.push(q);
            proof {
                assert(rest2.skip(t - j - 1 + 1) =~= full.skip(t as int + 1));
                assert(extract_from(s, qc, ic) == combine(
                    qv,
                    extract_from(full.skip(t as int + 1), qc, ic),
                ));
                assert(qs_view(qs@) =~= qs_view(qs0).push(qv));
                lemma_prepend_combine(qs_view(qs0), qv, extract_from(full.skip(t as int + 1), qc, ic));
            }
            i = t + 1;
        } else {
            // no image: the body node is itself the answer paragraph
            let para = match &ns[j] {
                DomNode::Element(e) => e,
                DomNode::Text(_) => {
                    proof {
                        assert(false);
                    }
                    unreached()
                },
            };
            proof {
                assert(elem_of(rest1[j - i - 1]) == *para);
            }
            let acs = collect_choices(para);
            let q = Question { title: title, img_src: None, answer_choices: acs };
            let ghost qv = q@;
            let ghost qs0 = qs@;
            qs.push(q);
            proof {
                assert(rest1.skip(j - i - 1 + 1) =~= full.skip(j as int + 1));
                assert(extract_from(s, qc, ic) == combine(
                    qv,
                    extract_from(full.skip(j as int + 1), qc, ic),
                ));
                assert(qs_view(qs@) =~= qs_view(qs0).push(qv));
                lemma_prepend_combine(qs_view(qs0), qv, extract_from(full.skip(j as int + 1), qc, ic));
            }
            i = j + 1;
        }
    }
    proof {
        assert(full.skip(n as int).len() == 0);
        lemma_find_marker(full.skip(n as int), qc);
        assert(extract_from(full.skip(n as int), qc, ic) == Ok::<_, ExtractError>(
            Seq::<QuestionView>::empty(),
        ));
        assert(qs_view(qs@) + Seq::<QuestionView>::empty() =~= qs_view(qs@));
    }
    Ok(qs)
}

/// No extracted answer choice ever has empty text: children that normalize
/// to nothing are filtered out, never materialized.
pub proof fn lemma_choices_nonempty(ns: Seq<DomNode>, j: int)
    requires
        0 <= j < choices_of(ns).len(),
    ensures
        choices_of(ns)[j].text.len() > 0,
    decreases ns.len(),
{
    if ns.len() == 0 {
    } else {
        let h = choice_of(ns[0]);
        if j < h.len() {
        } else {
            lemma_choices_nonempty(ns.drop_first(), j - h.len());
        }
    }
}

/// A well-formed extracted choice: nonempty, collapsed text.
pub open spec fn wf_choice(c: AnswerChoiceView) -> bool {
    c.text.len() > 0 && collapsed(c.text)
}

/// A well-formed extracted question: a collapsed title, and only
/// well-formed choices.
pub open spec fn wf_question(q: QuestionView) -> bool {
    collapsed(q.title) && forall|j: int|
        0 <= j < q.answer_choices.len() ==> wf_choice(#[trigger] q.answer_choices[j])
}

proof fn lemma_choice_of_wf(n: DomNode)
    ensures
        forall|j: int| 0 <= j < choice_of(n).len() ==> wf_choice(#[trigger] choice_of(n)[j]),
{
    match n {
        DomNode::Text(t) => {
            lemma_normalization_collapsed(t@);
        },
        DomNode::Element(e) => {
            lemma_normalization_collapsed(elem_text(e));
        },
    }
}

proof fn lemma_choices_of_wf(ns: Seq<DomNode>)
    ensures
        forall|j: int| 0 <= j < choices_of(ns).len() ==> wf_choice(#[trigger] choices_of(ns)[j]),
    decreases ns.len(),
{
    if ns.len() == 0 {
    } else {
        lemma_choice_of_wf(ns[0]);
        lemma_choices_of_wf(ns.drop_first());
        let h = choice_of(ns[0]);
        let r = choices_of(ns.drop_first());
        assert forall|j: int| 0 <= j < choices_of(ns).len() implies wf_choice(
            #[trigger] choices_of(ns)[j],
        ) by {
            if j < h.len() {
                assert(choices_of(ns)[j] == h[j]);
            } else {
                assert(choices_of(ns)[j] == r[j - h.len()]);
            }
        }
    }
}

/// Everything the extractor yields is fully assembled: each question's
/// title is collapsed, and each answer choice has nonempty, collapsed
/// text. Children that normalize to nothing are never materialized.
pub proof fn lemma_extraction_wellformed(ns: Seq<DomNode>, qc: Seq<char>, ic: Seq<char>)
    ensures
        (extract_from(ns, qc, ic) matches Ok(qs) ==> forall|i: int|
            0 <= i < qs.len() ==> wf_question(#[trigger] qs[i])),
    decreases ns.len(),
{
    lemma_find_marker(ns, qc);
    let m = find_marker(ns, qc);
    if m >= ns.len() {
    } else {
        let e = elem_of(ns[m]);
        let rest1 = ns.skip(m + 1);
        lemma_find_body(rest1, ic);
        let b = find_body(rest1, ic);
        if b >= rest1.len() {
        } else if is_image_container(rest1[b], ic) {
            match image_src_of(elem_of(rest1[b])) {
                Err(_) => {},
                Ok(src) => {
                    let rest2 = rest1.skip(b + 1);
                    lemma_find_para(rest2);
                    let p = find_para(rest2);
                    if p >= rest2.len() {
                    } else {
                        lemma_normalization_collapsed(join_sp(child_strings(e.children@)));
                        lemma_choices_of_wf(elem_of(rest2[p]).children@);
                        lemma_extraction_wellformed(rest2.skip(p + 1), qc, ic);
                        let q = QuestionView {
                            title: title_of(e),
                            img_src: Some(src),
                            answer_choices: choices_of(elem_of(rest2[p]).children@),
                        };
                        match extract_from(rest2.skip(p + 1), qc, ic) {
                            Ok(rest) => {
                                assert forall|i: int|
                                    0 <= i < (seq![q] + rest).len() implies wf_question(
                                    #[trigger] (seq![q] + rest)[i],
                                ) by {
                                    if i >= 1 {
                                        assert((seq![q] + rest)[i] == rest[i - 1]);
                                    }
                                }
                            },
                            Err(_) => {},
                        }
                    }
                },
            }
        } else {
            lemma_normalization_collapsed(join_sp(child_strings(e.children@)));
            lemma_choices_of_wf(elem_of(rest1[b]).children@);
            lemma_extraction_wellformed(rest1.skip(b + 1), qc, ic);
            let q = QuestionView {
                title: title_of(e),
                img_src: None,
                answer_choices: choices_of(elem_of(rest1[b]).children@),
            };
            match extract_from(rest1.skip(b + 1), qc, ic) {
                Ok(rest) => {
                    assert forall|i: int| 0 <= i < (seq![q] + rest).len() implies wf_question(
                        #[trigger] (seq![q] + rest)[i],
                    ) by {
                        if i >= 1 {
                            assert((seq![q] + rest)[i] == rest[i - 1]);
                        }
                    }
                },
                Err(_) => {},
            }
        }
    }
}

} // verus!
