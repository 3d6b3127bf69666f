//! Doc comments.
use hella::docs::extract_doc_comment;

#[test]
fn doc_above_item() {
    let src = "/// Prints hello.\nvoid print(string s) do\nend\n";
    let off = src.find("void print").unwrap();
    assert_eq!(extract_doc_comment(src, off).as_deref(), Some("Prints hello."));
}

#[test]
fn normal_comment_not_doc() {
    let src = "// Prints hello.\nvoid print(string s) do\nend\n";
    let off = src.find("void print").unwrap();
    assert_eq!(extract_doc_comment(src, off), None);
}

#[test]
fn four_slashes_not_doc() {
    let src = "//// Prints hello.\nvoid print(string s) do\nend\n";
    let off = src.find("void print").unwrap();
    assert_eq!(extract_doc_comment(src, off), None);
}

#[test]
fn multiline_doc_joins() {
    let src = "/// Line one.\n/// Line two.\nvoid f() do\nend\n";
    let off = src.find("void f").unwrap();
    assert_eq!(extract_doc_comment(src, off).as_deref(), Some("Line one.\nLine two."));
}

#[test]
fn blank_line_breaks_attachment() {
    let src = "/// Orphaned.\n\nvoid f() do\nend\n";
    let off = src.find("void f").unwrap();
    assert_eq!(extract_doc_comment(src, off), None);
}

#[test]
fn normal_comment_breaks_block() {
    let src = "/// Upper.\n// note\n/// Lower.\nvoid f() do\nend\n";
    let off = src.find("void f").unwrap();
    assert_eq!(extract_doc_comment(src, off).as_deref(), Some("Lower."));
}

#[test]
fn indented_doc() {
    let src = "struct S has\n  /// The x field.\n  int x\nend\n";
    let off = src.find("int x").unwrap();
    assert_eq!(extract_doc_comment(src, off).as_deref(), Some("The x field."));
}

#[test]
fn docs_without_text_document_nothing() {
    let src = "///\n///  \nvoid f() do\nend\n";
    assert_eq!(extract_doc_comment(src, src.find("void f").unwrap()), None);
}

#[test]
fn offsets_count_bytes() {
    let src = "/// Größe – ✓\nvoid f() do\nend\n/// zwei\nvoid g() do\nend\n";
    let off = src.find("void g").unwrap();
    assert_eq!(extract_doc_comment(src, off).as_deref(), Some("zwei"));
    let off = src.find("void f").unwrap();
    assert_eq!(extract_doc_comment(src, off).as_deref(), Some("Größe – ✓"));
}

#[test]
fn offset_behind_the_end_counts_as_the_end() {
    let src = "/// doc\nvoid f() do";
    assert_eq!(extract_doc_comment(src, 10_000).as_deref(), Some("doc"));
    assert_eq!(extract_doc_comment("", 0), None);
}

#[test]
fn only_one_space_is_stripped() {
    let src = "///   indented\r\nint x\n";
    let off = src.find("int x").unwrap();
    assert_eq!(extract_doc_comment(src, off).as_deref(), Some("  indented"));
}
