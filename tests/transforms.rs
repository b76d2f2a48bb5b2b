use importer::blockquote::update_node_blockquote;
use importer::math_block::{math_block_unclosed, update_node_math_block};
use importer::paragraph::update_node_paragraph;
use importer::tree::LeafKind;
use importer::walk::transform_block;

#[test]
fn paragraph_escapes_and_image_link() {
    let data = "一些文本 \\$一些数学公式\\$\n[](image.jpg)\n这是一行其他文本\n{: id=\"xxx\" }";
    assert_eq!(
        update_node_paragraph(data),
        "一些文本 $一些数学公式$\n![](image.jpg)\n这是一行其他文本"
    );
}

#[test]
fn math_block_between_text_lines() {
    let input = "before\n$$\n$ math $\n$$\nafter\nextra";
    assert_eq!(update_node_math_block(input), "before\n$$\n math \n$$\nafter");
}

#[test]
fn escape_runs_keep_half_their_backslashes() {
    assert_eq!(update_node_paragraph("a\\\\$b\n{: x}"), "a\\$b");
    assert_eq!(update_node_paragraph("a\\\\\\$b\n{: x}"), "a\\$b");
    assert_eq!(update_node_paragraph("a\\\\\\\\$b \\$c\n{: x}"), "a\\\\$b $c");
}

#[test]
fn backslashes_not_before_a_dollar_stay() {
    assert_eq!(update_node_paragraph("a\\\\b \\$\n{: x}"), "a\\\\b $");
}

#[test]
fn image_link_embedding_is_idempotent_on_an_example() {
    let once = update_node_paragraph("see [pic](dir/a.png) and [doc](b.txt)\nmeta");
    assert_eq!(once, "see ![pic](dir/a.png) and [doc](b.txt)");
    let twice = update_node_paragraph(&format!("{}\nmeta", once));
    assert_eq!(twice, once);
}

#[test]
fn embedded_images_are_not_prefixed_again() {
    assert_eq!(update_node_paragraph("![a](x.gif)\nmeta"), "![a](x.gif)");
}

#[test]
fn image_extension_match_is_case_sensitive() {
    assert_eq!(update_node_paragraph("[a](x.JPG)\nmeta"), "[a](x.JPG)");
    assert_eq!(update_node_paragraph("[a](x.wmf)\nmeta"), "![a](x.wmf)");
    assert_eq!(update_node_paragraph("[a](x.jpeg)\nmeta"), "![a](x.jpeg)");
}

#[test]
fn image_link_does_not_span_lines() {
    assert_eq!(update_node_paragraph("[a]\n(x.png)\nmeta"), "[a]\n(x.png)");
}

#[test]
fn paragraph_with_one_line_becomes_empty() {
    assert_eq!(update_node_paragraph(""), "");
    assert_eq!(update_node_math_block(""), "");
    assert_eq!(update_node_paragraph("{: id=\"x\"}"), "");
    assert_eq!(update_node_paragraph("only\n"), "");
}

#[test]
fn math_block_shape_has_two_delimiter_lines() {
    let out = update_node_math_block("$$\n$$$x + y$$\n$$\n{: id=\"m\"}");
    assert_eq!(out, "$$\nx + y\n$$");
}

#[test]
fn math_block_without_closing_delimiter_fails() {
    assert!(math_block_unclosed("$$\n$x$\nend\nmeta"));
    assert_eq!(transform_block(LeafKind::MathBlock, "$$\n$x$\nend\nmeta"), None);
    assert_eq!(transform_block(LeafKind::MathBlock, "$$\n$x$\nm"), None);
    assert_eq!(transform_block(LeafKind::MathBlock, "a\n$$\nm"), None);
}

#[test]
fn closed_math_blocks_are_not_unclosed() {
    assert!(!math_block_unclosed("before\n$$\n$ math $\n$$\nafter\nextra"));
    assert!(!math_block_unclosed("no math here\nmeta"));
    assert!(!math_block_unclosed("a $$ b\nmeta"));
    assert_eq!(
        transform_block(LeafKind::MathBlock, "$$\n$y$\n$$\nmeta"),
        Some("$$\ny\n$$".to_string())
    );
}

#[test]
fn blockquote_without_callouts_is_unchanged() {
    let data = "> just a quote\n> [link](http://a.b)\n{: id=\"q\" updated=\"1\"}";
    assert_eq!(update_node_blockquote(data), data);
}

#[test]
fn blockquote_body_stops_at_attribute_list() {
    let data = "> [!important] Keep this\n{: id=\"q\" updated=\"1\"}";
    assert_eq!(update_node_blockquote(data), "> Keep this");
}

#[test]
fn info_callout_without_link_is_its_title() {
    let data = "> [!info]  Title here \n> body text\n{: id=\"q\" updated=\"1\"}";
    assert_eq!(update_node_blockquote(data), "Title here");
}

#[test]
fn important_callouts_come_before_info_callouts() {
    let data = "> [!info] I\n> [!important] M\n";
    assert_eq!(update_node_blockquote(data), "> M\n\nI");
}

#[test]
fn transform_of_empty_content_is_empty() {
    assert_eq!(transform_block(LeafKind::Paragraph, ""), Some(String::new()));
    assert_eq!(transform_block(LeafKind::MathBlock, ""), Some(String::new()));
    assert_eq!(transform_block(LeafKind::Blockquote, ""), Some(String::new()));
    assert_eq!(
        transform_block(LeafKind::Paragraph, "[x](y.svg)\nmeta"),
        Some("![x](y.svg)".to_string())
    );
}

#[test]
fn link_starts_at_the_last_bracket_before_its_text_end() {
    let once = update_node_paragraph("[a[b](x.png)\nmeta");
    assert_eq!(once, "[a![b](x.png)");
    let twice = update_node_paragraph(&format!("{}\nmeta", once));
    assert_eq!(twice, once);
    let once = update_node_paragraph("[[](x.ai)\nm");
    assert_eq!(once, "[![](x.ai)");
    assert_eq!(update_node_paragraph(&format!("{}\nm", once)), once);
}

#[test]
fn bracket_in_link_target_is_not_a_link() {
    let once = update_node_paragraph("[a](b[c](d.png)\nm");
    assert_eq!(once, "[a](b![c](d.png)");
    assert_eq!(update_node_paragraph(&format!("{}\nm", once)), once);
    assert_eq!(update_node_paragraph("[x] [a](b.jpg)\nm"), "[x] ![a](b.jpg)");
}

#[test]
fn one_link_per_line_is_stable() {
    let once = update_node_paragraph("[a](1.bmp)\ntext [b](2.webp)\n[c](3.ai)\nmeta");
    assert_eq!(once, "![a](1.bmp)\ntext ![b](2.webp)\n![c](3.ai)");
    let twice = update_node_paragraph(&format!("{}\nmeta", once));
    assert_eq!(twice, once);
}

#[test]
fn closed_multi_line_math_block_is_kept() {
    let data = "$$\na\nb\n$$\n{: id=\"m\"}";
    assert!(!math_block_unclosed(data));
    assert_eq!(transform_block(LeafKind::MathBlock, data), Some("$$\na\nb\n$$".to_string()));
    assert_eq!(transform_block(LeafKind::MathBlock, "$$\n$$\nm"), Some("$$\n$$".to_string()));
}

#[test]
fn math_delimiter_left_open_after_a_block_fails() {
    assert!(math_block_unclosed("$$\na\n$$\nx\n$$\nm"));
    assert_eq!(transform_block(LeafKind::MathBlock, "$$\na\n$$\nx\n$$\nm"), None);
}

#[test]
fn carriage_return_ends_a_line_with_its_newline() {
    assert_eq!(update_node_paragraph("text\r\n{: id}"), "text");
    assert_eq!(update_node_paragraph("a\r\nb\r\nmeta"), "a\nb");
    assert_eq!(update_node_paragraph("a\rb\nmeta"), "a\rb");
    assert_eq!(update_node_math_block("$$\r\n$x$\r\n$$\r\nmeta"), "$$\nx\n$$");
}

#[test]
fn paragraph_repair_keeps_every_dollar() {
    let body = "a\\\\\\$b $c \\$ [x](y.png) $$";
    let out = update_node_paragraph(&format!("{}\nmeta", body));
    assert_eq!(out, "a\\$b $c $ ![x](y.png) $$");
    assert_eq!(out.matches('$').count(), body.matches('$').count());
}
