//! Tests of code block detection.

use vaultiel::parser::code_block::{find_code_block_ranges, is_in_code_block, is_line_in_fenced_code_block};

#[test]
fn test_fenced_code_block() {
    let content = r#"Some text

```rust
let x = [[not a link]];
```

More text"#;

    let ranges = find_code_block_ranges(content);
    assert_eq!(ranges.len(), 1);
    assert!(ranges[0].is_fenced);
    assert_eq!(ranges[0].start_line, 3);
}

#[test]
fn test_inline_code() {
    let content = "Some `inline [[code]]` here";
    let ranges = find_code_block_ranges(content);
    assert_eq!(ranges.len(), 1);
    assert!(!ranges[0].is_fenced);
}

#[test]
fn test_double_backtick_inline() {
    let content = "Some ``inline `code` with backticks`` here";
    let ranges = find_code_block_ranges(content);
    assert_eq!(ranges.len(), 1);
}

#[test]
fn test_nested_fenced_blocks() {
    let content = r#"```
outer
```

text

~~~
inner
~~~"#;

    let ranges = find_code_block_ranges(content);
    assert_eq!(ranges.len(), 2);
}

#[test]
fn test_is_in_code_block() {
    let content = "before `code` after";
    let ranges = find_code_block_ranges(content);

    assert!(!is_in_code_block(0, &ranges));
    assert!(is_in_code_block(8, &ranges));
    assert!(!is_in_code_block(14, &ranges));
}

#[test]
fn code_block_line_in_fence() {
    let content = "a\n```\nx\n```\nb";
    let ranges = find_code_block_ranges(content);
    assert!(is_line_in_fenced_code_block(3, &ranges));
    assert!(!is_line_in_fenced_code_block(5, &ranges));
    assert_eq!(ranges[0].start, 2);
    assert_eq!(ranges[0].end, 11);
}
