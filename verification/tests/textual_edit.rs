use dq_core::FormatTag;
use dq_core::textual_edit::{insertion_renderer_for_format, renderer_for_format};

#[test]
fn yaml_renderer_is_registered() {
    assert!(
        renderer_for_format(FormatTag::Yaml).is_some(),
        "YAML scalar renderer must be registered"
    );
    assert!(
        insertion_renderer_for_format(FormatTag::Yaml).is_some(),
        "YAML insertion renderer must be registered"
    );
}

#[test]
fn toml_renderer_is_registered() {
    assert!(
        renderer_for_format(FormatTag::Toml).is_some(),
        "TOML scalar renderer must be registered"
    );
    assert!(
        insertion_renderer_for_format(FormatTag::Toml).is_some(),
        "TOML insertion renderer must be registered"
    );
}

#[test]
fn json_renderer_is_registered() {
    assert!(
        renderer_for_format(FormatTag::Json).is_some(),
        "JSON scalar renderer must be registered"
    );
    assert!(
        insertion_renderer_for_format(FormatTag::Json).is_some(),
        "JSON insertion renderer must be registered"
    );
}

#[test]
fn jsonl_renderer_remains_unregistered() {
    let tag = FormatTag::Jsonl;
    assert!(
        renderer_for_format(tag).is_none(),
        "{tag:?} scalar renderer must remain unregistered until its section lands"
    );
    assert!(
        insertion_renderer_for_format(tag).is_none(),
        "{tag:?} insertion renderer must remain unregistered until its section lands"
    );
}
