use quiz_extract::extract_image_name;
use quiz_extract::normalize::normalize_answer_text;
use quiz_extract::normalize::normalize_question_title;
use quiz_extract::normalize::normalize_string;
use quiz_extract::repair::fix_img_tags;
use quiz_extract::repair::repair_markup;

#[test]
fn test_img() {
    let input = r##"
        <img decoding="async" src="https://move2thailand.com/wp-content/uploads/2020/02/1-3-1-c6d1.jpg.webp"
            class="wp-image-6962" width="300" height="211">
        <p>A. Be extra careful. Then stop the car.</p>
        <img decoding="async" class="wp-image-6962" width="300" height="211">
        <img decoding="async" class="wp-image-6962" width="555" height="100"/>
        <img decoding="async" class="wp-image-3232" width="666" height="555">
        <figure></figure>
        <figure class="aligncenter size-large">
          <img decoding="async" src="https://move2thailand.com/wp-content/uploads/2020/02/1-3-1-c6d1.jpg.webp"
            alt="Thai Driving License Exam Test Questions and Answers in 2020" class="wp-image-6962" width="300" height="211"/>
        </figure>
        <figure class="wp-block-ta-image wp-block-image"><a class="thirstylinkimg" rel="nofollow noindex" title="prakan-motorbike-insurance"
                                                            href="https://move2thailand.com/recommends/motorbike-insurance/" data-shortcode="true"><img
                decoding="async" src="https://move2thailand.com/wp-content/uploads/2020/10/motorbike-insurance-thailand.jpg.webp" alt=""
                class="wp-image-14258"
                srcset="https://move2thailand.com/wp-content/uploads/2020/10/motorbike-insurance-thailand.jpg.webp 800w, https://move2thailand.com/wp-content/uploads/2020/10/motorbike-insurance-thailand-300x60.jpg.webp 300w, https://move2thailand.com/wp-content/uploads/2020/10/motorbike-insurance-thailand-768x154.jpg.webp 768w"
                sizes="(max-width: 800px) 100vw, 800px" width="800" height="160"></a>
            <figcaption></figcaption>
        </figure>
        "##;
    let result = fix_img_tags(input);
    let expected = r##"
        <img decoding="async" src="https://move2thailand.com/wp-content/uploads/2020/02/1-3-1-c6d1.jpg.webp"
            class="wp-image-6962" width="300" height="211"/>
        <p>A. Be extra careful. Then stop the car.</p>
        <img decoding="async" class="wp-image-6962" width="300" height="211"/>
        <img decoding="async" class="wp-image-6962" width="555" height="100"/>
        <img decoding="async" class="wp-image-3232" width="666" height="555"/>
        <figure></figure>
        <figure class="aligncenter size-large">
          <img decoding="async" src="https://move2thailand.com/wp-content/uploads/2020/02/1-3-1-c6d1.jpg.webp"
            alt="Thai Driving License Exam Test Questions and Answers in 2020" class="wp-image-6962" width="300" height="211"/>
        </figure>
        <figure class="wp-block-ta-image wp-block-image"><a class="thirstylinkimg" rel="nofollow noindex" title="prakan-motorbike-insurance"
                                                            href="https://move2thailand.com/recommends/motorbike-insurance/" data-shortcode="true"><img
                decoding="async" src="https://move2thailand.com/wp-content/uploads/2020/10/motorbike-insurance-thailand.jpg.webp" alt=""
                class="wp-image-14258"
                srcset="https://move2thailand.com/wp-content/uploads/2020/10/motorbike-insurance-thailand.jpg.webp 800w, https://move2thailand.com/wp-content/uploads/2020/10/motorbike-insurance-thailand-300x60.jpg.webp 300w, https://move2thailand.com/wp-content/uploads/2020/10/motorbike-insurance-thailand-768x154.jpg.webp 768w"
                sizes="(max-width: 800px) 100vw, 800px" width="800" height="160"/></a>
            <figcaption></figcaption>
        </figure>
        "##;
    assert_eq!(result, expected);
}

#[test]
fn test_normalize_string() {
    let input = "  this\n   is test\n string\n";
    let result = normalize_string(input);
    assert_eq!(result, "this is test string");
}

#[test]
fn test_normalize_question_title() {
    let input = "15.1 this\n   is test\n question\n";
    let result = normalize_question_title(input);
    assert_eq!(result, "this is test question");
}

#[test]
fn test_normalize_answer_text() {
    assert_eq!(
        normalize_answer_text("D. this\n   is test\n answer\n"),
        "this is test answer"
    );
    assert_eq!(
        normalize_answer_text("b.this\n   is test\n answer\n"),
        "this is test answer"
    );
}

#[test]
fn test_extract_image_name() {
    assert_eq!(
        extract_image_name("https://move2thailand.com/wp-content/uploads/2020/02/1-3-1-c6d1.jpg.webp"),
        "1-3-1-c6d1.jpg.webp"
    );
}

#[test]
fn extract_image_name_without_separator() {
    assert_eq!(extract_image_name("plain.webp"), "plain.webp");
    assert_eq!(extract_image_name("trailing/"), "");
    assert_eq!(extract_image_name(""), "");
}

#[test]
fn repair_replaces_entities_and_br() {
    let input = "a&nbsp;b<br>c<br/>d";
    assert_eq!(repair_markup(input), "a b<br/>c<br/>d");
}

#[test]
fn repair_is_idempotent_on_samples() {
    let samples = [
        "a&nbsp;b<br>c<br/>d",
        "<img a=\"1\">text<img b=\"2\"/>",
        "<img multi\nline>",
        "plain text without tags",
        "<img no close at all",
    ];
    for s in samples {
        let once = repair_markup(s);
        let twice = repair_markup(&once);
        assert_eq!(once, twice);
    }
}

#[test]
fn repair_keeps_closed_img_identical() {
    let closed = "<img decoding=\"async\" width=\"300\" height=\"211\"/>";
    assert_eq!(fix_img_tags(closed), closed);
    let open = "<img decoding=\"async\" width=\"300\" height=\"211\">";
    assert_eq!(fix_img_tags(open), closed);
}

#[test]
fn normalization_leaves_no_runs() {
    let out = normalize_string("a\n\n  b\tc  ");
    assert_eq!(out, "a b c");
    let out2 = normalize_question_title("12. \n  x\n");
    assert_eq!(out2, "x");
    let out3 = normalize_answer_text("  B.  two  words ");
    assert_eq!(out3, "two words");
}

#[test]
fn normalize_empty_and_separator_only() {
    assert_eq!(normalize_string(""), "");
    assert_eq!(normalize_string(" \n \t "), "");
    assert_eq!(normalize_answer_text(" \n"), "");
}

#[test]
fn unicode_whitespace_is_collapsed_too() {
    assert_eq!(normalize_string("\u{00A0}"), "");
    assert_eq!(normalize_question_title("x\u{00A0}"), "x");
    assert_eq!(normalize_answer_text("\u{00A0}D. x"), "x");
    assert_eq!(normalize_string("a\u{2003}\u{2028}b"), "a b");
}
