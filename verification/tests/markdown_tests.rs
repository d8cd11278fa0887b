use mdbook_obgraph::markdown::{obgraph_blocks, process_markdown};

fn render_all(md: &str, f: impl Fn(&str) -> Result<String, String>) -> String {
    let blocks = obgraph_blocks(md);
    let rendered: Vec<Result<String, String>> = blocks.iter().map(|b| f(b)).collect();
    process_markdown(md, &rendered)
}

#[test]
fn text_without_blocks_is_unchanged() {
    let md = "# Title\n\nSome ```rust\ncode```\n";
    assert!(obgraph_blocks(md).is_empty());
    assert_eq!(process_markdown(md, &vec![]), md);
}

#[test]
fn block_is_replaced_by_rendering() {
    let md = "before\n```obgraph\nnode a {}\n```\nafter\n";
    assert_eq!(obgraph_blocks(md), vec!["\nnode a {}\n".to_string()]);
    let out = render_all(md, |_| Ok("<svg/>".to_string()));
    assert_eq!(out, "before\n<svg/>\nafter\n");
}

#[test]
fn failed_block_keeps_source_after_comment() {
    let md = "```obgraph\nbad\n```\n";
    let out = render_all(md, |_| Err("oops".to_string()));
    assert_eq!(out, "<!-- mdbook-obgraph error: oops -->\n```obgraph\nbad\n```\n");
}

#[test]
fn fence_must_start_a_line() {
    let md = "text ```obgraph\nx\n```\n";
    assert!(obgraph_blocks(md).is_empty());
    assert_eq!(process_markdown(md, &vec![]), md);
}

#[test]
fn fence_may_follow_leading_spaces() {
    let md = "  ```obgraph\nx\n```\n";
    assert_eq!(obgraph_blocks(md), vec!["\nx\n".to_string()]);
    assert_eq!(render_all(md, |_| Ok("R".to_string())), "  R\n");
}

#[test]
fn info_string_must_be_blank() {
    let md = "```obgraph extra\nx\n```\n```obgraph \t\nY\n```  \n";
    assert_eq!(obgraph_blocks(md), vec![" \t\nY\n".to_string()]);
    assert_eq!(render_all(md, |b| Ok(b.trim().to_string())), "```obgraph extra\nx\n```\nY  \n");
}

#[test]
fn unclosed_fence_is_kept() {
    let md = "a\n```obgraph\nnode x {}\n";
    assert!(obgraph_blocks(md).is_empty());
    assert_eq!(process_markdown(md, &vec![]), md);
}

#[test]
fn closing_fence_must_be_its_own_line() {
    let md = "```obgraph\nx ```\n```rust\n```\nz";
    assert_eq!(obgraph_blocks(md), vec!["\nx ```\n```rust\n".to_string()]);
    assert_eq!(render_all(md, |_| Ok("S".to_string())), "S\nz");
}

#[test]
fn several_blocks_in_order() {
    let md = "```obgraph\n1\n```\nmid\n```obgraph\n2\n```\r\nend";
    assert_eq!(obgraph_blocks(md), vec!["\n1\n".to_string(), "\n2\n".to_string()]);
    assert_eq!(
        render_all(md, |b| Ok(format!("<{}>", b.trim()))),
        "<1>\nmid\n<2>\r\nend"
    );
}

#[test]
fn non_ascii_text_is_preserved() {
    let md = "é ü\n```obgraph\nλ\n```\n→";
    assert_eq!(render_all(md, |_| Ok("ok".to_string())), "é ü\nok\n→");
}

#[test]
fn blocks_fenced_again_give_the_markdown_back() {
    let md = "# A\n```obgraph\nnode a {}\n```\ntext\n  ```obgraph\nnode b {}\n```   \nend";
    let out = render_all(md, |b| Ok(format!("```obgraph{b}```")));
    assert_eq!(out, md);
}

#[test]
fn indented_closing_fence_ends_the_block() {
    let md = "```obgraph\nX\n  ```\nrest";
    assert_eq!(obgraph_blocks(md), vec!["\nX\n  ".to_string()]);
    assert_eq!(render_all(md, |_| Ok("S".to_string())), "S\nrest");
}

#[test]
fn closing_fence_may_carry_whitespace_on_both_sides() {
    let md = "  ```obgraph\nnode a {}\n\t ``` \t\nafter\n```\n";
    assert_eq!(obgraph_blocks(md), vec!["\nnode a {}\n\t ".to_string()]);
    assert_eq!(render_all(md, |_| Ok("S".to_string())), "  S \t\nafter\n```\n");
}

#[test]
fn failed_block_with_indented_closer_keeps_its_source() {
    let md = "```obgraph\nbad\n   ```\nz";
    let out = render_all(md, |_| Err("e".to_string()));
    assert_eq!(out, "<!-- mdbook-obgraph error: e -->\n```obgraph\nbad\n   ```\nz");
}

#[test]
fn indented_blocks_fenced_again_give_the_markdown_back() {
    let md = "- item\n  ```obgraph\n  node a {}\n  ```\n- next";
    let out = render_all(md, |b| Ok(format!("```obgraph{b}```")));
    assert_eq!(out, md);
}
