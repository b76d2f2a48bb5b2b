use importer::blockquote::update_node_blockquote;
use importer::math_block::update_node_math_block;
use importer::paragraph::update_node_paragraph;

#[test]
fn test_update_node_paragraph() {
    let data = r#"一些文本 \$一些数学公式\$
[](image.jpg)
这是一行其他文本
{: id="xxx" }"#;
    let target = r#"一些文本 $一些数学公式$
![](image.jpg)
这是一行其他文本"#;
    let updated = update_node_paragraph(data);
    assert_eq!(updated, target);
}

#[test]
fn block_test_update_node_math_block() {
    let input = "Some text before\n$$\n$ some math block $\n$$\nSome text after\n new line";
    let target = "Some text before\n$$\n some math block \n$$\nSome text after";
    let updated_data = update_node_math_block(input);
    assert_eq!(updated_data, target);
}

#[test]
fn block_test_update_node_blockquote() {
    let data = r#"
> [!important] This is important content
> This is important content 2
> [!info] This is info content 1
> data [link](http://example.com)
> [!info] This is info content 2
> data [link](http://example.com)
    "#;
    let target = r#"> This is important content
> This is important content 2
>

[This is info content 1](http://example.com)

[This is info content 2](http://example.com)"#;
    let updated_data = update_node_blockquote(data);
    assert_eq!(updated_data, target);
}

#[test]
fn update_block_test_update_node_math_block() {
    let input = "Some text before\n$$\n$ some math block $\n$$\nSome text after";
    let updated_data = update_node_math_block(input);
    println!("Updated data:\n{}", updated_data);
    assert_eq!(updated_data, "Some text before\n$$\n some math block \n$$");
}

#[test]
fn update_block_test_update_node_blockquote() {
    let data = r#"
> [!important] This is important content
> This is important content 2
> [!info] This is info content with 3
> data [link](http://example.com)
> [!info] 544335 info
> data [link](http://example.com)
    "#;
    let updated_data = update_node_blockquote(data);
    println!("Updated data:\n{}", updated_data);
    assert_eq!(
        updated_data,
        "> This is important content\n> This is important content 2\n>\n\n\
         [This is info content with 3](http://example.com)\n\n\
         [544335 info](http://example.com)"
    );
}
