use piper::errors::BuildError;
use piper::scriptstring::indent_string;
use piper::scriptstring::ScriptString;
use piper::value::extract_derivation_hashes;
use piper::value::literal_of;
use piper::value::AttrValue;

#[test]
fn basic_interpolations() {
    // A script is split left to right at its ${...} placeholders, and the
    // resolved values are interleaved back on rendering.
    let script = ScriptString::new("\necho ${greeting} > ${file}".to_string());
    assert_eq!(script.interpolations, vec!["greeting".to_string(), "file".to_string()]);
    assert_eq!(
        script.string_fragments,
        vec!["\necho ".to_string(), " > ".to_string(), "".to_string()]
    );

    let mut script = script;
    script.interpolations = vec!["hi".to_string(), "log".to_string()];
    let rendered = script.to_string().expect("two lines render");
    assert_eq!(rendered, "echo hi > log");
}

#[test]
fn node_interpolation() {
    // A resolved value that references another derivation renders as that
    // derivation's hash, and the hash is collected as a dependency.
    let value = AttrValue::DerivationRef("123-upstream".to_string());
    assert_eq!(literal_of(&value), "123-upstream");
    assert_eq!(extract_derivation_hashes(&value), vec!["123-upstream".to_string()]);
}

#[test]
fn dependency_extraction_recurses() {
    // Derivation references are collected from arbitrarily nested values;
    // scalars contribute nothing.
    let value = AttrValue::List(vec![
        AttrValue::DerivationRef("1-a".to_string()),
        AttrValue::Dict(vec![
            ("k".to_string(), AttrValue::DerivationRef("2-b".to_string())),
            ("s".to_string(), AttrValue::Str("plain".to_string())),
        ]),
        AttrValue::Int(7),
        AttrValue::Bool(true),
    ]);
    assert_eq!(
        extract_derivation_hashes(&value),
        vec!["1-a".to_string(), "2-b".to_string()]
    );
}

#[test]
fn literals_render_scalars_and_collections() {
    assert_eq!(literal_of(&AttrValue::Str("x y".to_string())), "x y");
    assert_eq!(literal_of(&AttrValue::Int(-5)), "-5");
    assert_eq!(literal_of(&AttrValue::Int(42)), "42");
    assert_eq!(literal_of(&AttrValue::Bool(true)), "true");
    assert_eq!(literal_of(&AttrValue::Bool(false)), "false");
    let list = AttrValue::List(vec![
        AttrValue::Str("a".to_string()),
        AttrValue::Int(1),
        AttrValue::DerivationRef("9-z".to_string()),
    ]);
    assert_eq!(literal_of(&list), "a 1 9-z");
}

#[test]
fn indentation_is_normalized() {
    // The first line is reserved and dropped; the leading whitespace of the
    // first non-empty remaining line is stripped from every line that has
    // that exact prefix; lines without the prefix pass through unchanged.
    let s = "#!/bin/sh\n  echo a\n    echo b\nplain".to_string();
    let out = indent_string(s).expect("lines remain after the first");
    assert_eq!(out, "echo a\n  echo b\nplain");
}

#[test]
fn indentation_skips_empty_lines_for_the_prefix() {
    let s = "\n\n    echo a\n    echo b".to_string();
    let out = indent_string(s).expect("lines remain after the first");
    assert_eq!(out, "\necho a\necho b");
}

#[test]
fn empty_script_is_rejected() {
    assert_eq!(
        indent_string("just one line".to_string()),
        Err(BuildError::EmptyScript)
    );
    let empty = ScriptString {
        string_fragments: vec![],
        interpolations: vec![],
    };
    assert_eq!(empty.render(), Err(BuildError::EmptyScript));
    assert_eq!(empty.to_string(), Err(BuildError::EmptyScript));
}

#[test]
fn rendering_interleaves_fragments_and_values() {
    let script = ScriptString {
        string_fragments: vec!["a".to_string(), "b".to_string(), "c".to_string()],
        interpolations: vec!["1".to_string(), "2".to_string()],
    };
    assert_eq!(script.render().expect("fragments exist"), "a1b2c");
}

#[test]
fn unterminated_placeholder_is_literal() {
    let script = ScriptString::new("\necho ${unclosed".to_string());
    assert_eq!(script.interpolations.len(), 0);
    assert_eq!(script.string_fragments, vec!["\necho ${unclosed".to_string()]);
}
