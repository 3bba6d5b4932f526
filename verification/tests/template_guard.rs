use dq_core::template_guard::{detect_templates, restore_placeholders, substitute_placeholders};

#[test]
fn detect_templates_finds_helm_style_marker() {
    let src = b"image:\n  tag: {{ .Values.image.tag }}\n";
    let marker = detect_templates(src).expect("marker present");
    assert_eq!(marker.line, 2);
    assert!(
        marker.snippet.contains("{{ .Values.image.tag }}"),
        "snippet missing template: {:?}",
        marker.snippet
    );
}

#[test]
fn detect_templates_finds_github_actions_marker() {
    let src = b"jobs:\n  run:\n    secrets: ${{ secrets.GITHUB_TOKEN }}\n";
    let marker = detect_templates(src).expect("marker present");
    assert_eq!(marker.line, 3);
    assert!(marker.snippet.contains("${{ secrets.GITHUB_TOKEN }}"));
}

#[test]
fn detect_templates_negative_on_plain_yaml() {
    let src = b"image:\n  tag: 1.2.3\n  pullPolicy: IfNotPresent\n";
    assert!(detect_templates(src).is_none());
}

#[test]
fn detect_templates_ignores_lone_double_brace_in_prose() {
    let src = b"description: |\n  Use {{}} as a placeholder syntax.\n";
    assert!(detect_templates(src).is_none());
}

#[test]
fn substitute_then_restore_is_byte_equal() {
    let original: &[u8] = b"image:\n  tag: \"{{ .Values.tag }}\"\n  repo: {{- .Values.repo }}\n  token: ${{ secrets.X }}\n";
    let (substituted, map) = substitute_placeholders(original);
    assert_ne!(
        substituted, original,
        "expected substitution to alter bytes"
    );
    assert_eq!(map.len(), 3, "expected three template blocks");
    let restored = restore_placeholders(&substituted, &map);
    assert_eq!(
        restored,
        original,
        "round-trip must be byte-equal\nsubstituted: {}\nrestored: {}",
        String::from_utf8_lossy(&substituted),
        String::from_utf8_lossy(&restored),
    );
}

#[test]
fn substitute_preserves_surrounding_quotes() {
    let original: &[u8] = b"tag: \"{{ .Values.tag }}\"\n";
    let (substituted, _map) = substitute_placeholders(original);
    let s = std::str::from_utf8(&substituted).expect("ascii output");
    assert!(
        s.contains("\"__DQ_TPL_0__\""),
        "quotes must remain around the placeholder, got: {s}"
    );
}

#[test]
fn detect_templates_finds_a_trimming_marker() {
    let marker = detect_templates(b"repo: {{- .Values.repo }}\n").expect("marker present");
    assert_eq!(marker.line, 1);
    assert_eq!(marker.snippet, "repo: {{- .Values.repo }}");
    assert!(detect_templates(b"a: {{-x}}\n").is_some());
    assert!(detect_templates(b"a: {{ - x }}\n").is_none());
    assert!(detect_templates(b"a: {{--x}}\n").is_none());
}
