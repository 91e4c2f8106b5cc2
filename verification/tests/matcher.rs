use package_usage::matcher::uses_package;
use regex::Regex;

#[test]
fn require_regex() {
    let require_regex_string = format!("require\\((\"|'){}(\"|')\\)", "react");
    let require_regex = Regex::new(&require_regex_string[..]).unwrap();

    assert_eq!(
        require_regex.is_match("const react = require(\"react\")"),
        true
    );
    assert_eq!(uses_package("const react = require(\"react\")", "react"), true);
}

#[test]
fn import_regex() {
    let import_regex_string = format!("import .+ from (\"|'){}(\"|')", "react");
    let import_regex = Regex::new(&import_regex_string[..]).unwrap();

    assert_eq!(
        import_regex.is_match("import * as React from 'react'"),
        true
    );
    assert_eq!(uses_package("import * as React from 'react'", "react"), true);
}

#[test]
fn import_with_double_quotes_is_a_use() {
    assert!(uses_package("import React from \"react\"", "react"));
}

#[test]
fn import_with_single_quotes_is_a_use() {
    assert!(uses_package("import React from 'react'", "react"));
}

#[test]
fn require_with_single_quotes_is_a_use() {
    assert!(uses_package("const x = require('react')", "react"));
}

#[test]
fn import_is_found_anywhere_in_the_text() {
    let text = "// header\nconst a = 1;\nimport { useState } from \"react\";\nexport default a;\n";
    assert!(uses_package(text, "react"));
}

#[test]
fn text_without_reference_is_no_use() {
    assert!(!uses_package("const react = 1;\nexport default react;\n", "react"));
    assert!(!uses_package("", "react"));
}

#[test]
fn require_of_longer_name_is_no_use() {
    assert!(!uses_package("require(\"foo-bar\")", "foo"));
    assert!(!uses_package("require(\"foo-extra\")", "foo"));
    assert!(!uses_package("const x = require('react-dom')", "react"));
}

#[test]
fn require_of_longer_name_beside_a_real_one_is_a_use() {
    assert!(uses_package("require(\"foo-extra\"); require(\"foo\")", "foo"));
}

#[test]
fn import_of_longer_name_is_no_use() {
    assert!(!uses_package("import x from \"react-dom\"", "react"));
    assert!(!uses_package("import x from \"preact\"", "react"));
    assert!(!uses_package("require(\"preact\")", "react"));
}

#[test]
fn mismatched_quotes_are_accepted() {
    assert!(uses_package("import x from \"react'", "react"));
    assert!(uses_package("import x from 'react\"", "react"));
    assert!(uses_package("require('react\")", "react"));
    assert!(uses_package("require(\"react')", "react"));
}

#[test]
fn import_needs_a_binding() {
    assert!(!uses_package("import  from \"react\"", "react"));
    assert!(!uses_package("import from \"react\"", "react"));
    assert!(uses_package("import x from \"react\"", "react"));
    assert!(uses_package("import   from \"react\"", "react"));
}

#[test]
fn import_does_not_cross_a_line_end() {
    assert!(!uses_package("import x\n from \"react\"", "react"));
    assert!(!uses_package("import {\n  a,\n} from \"react\"", "react"));
    assert!(uses_package("import x\r from \"react\"", "react"));
}

#[test]
fn import_binding_may_hold_more_statements_of_the_line() {
    assert!(uses_package("import a from 'b'; import c from 'react'", "react"));
    assert!(uses_package("import import x from from \"react\"", "react"));
}

#[test]
fn import_on_an_earlier_line_does_not_count() {
    assert!(!uses_package("import a from 'b'\nx from 'react'", "react"));
    assert!(uses_package("import a from 'b'\nimport x from 'react'", "react"));
}

#[test]
fn require_takes_no_blank() {
    assert!(!uses_package("require( \"react\" )", "react"));
    assert!(!uses_package("require (\"react\")", "react"));
    assert!(!uses_package("require(\"react\" )", "react"));
    assert!(!uses_package("require(react)", "react"));
    assert!(!uses_package("require(`react`)", "react"));
}

#[test]
fn require_needs_its_closing_parenthesis() {
    assert!(!uses_package("require(\"react\"", "react"));
    assert!(!uses_package("require(\"react\", x)", "react"));
}

#[test]
fn import_needs_both_quotes() {
    assert!(!uses_package("import x from react", "react"));
    assert!(!uses_package("import x from \"react", "react"));
    assert!(!uses_package("import x from react\"", "react"));
}

#[test]
fn import_needs_single_blanks_round_from() {
    assert!(!uses_package("import x from  \"react\"", "react"));
    assert!(!uses_package("import x from\"react\"", "react"));
    assert!(!uses_package("import xfrom \"react\"", "react"));
    assert!(!uses_package("importx from \"react\"", "react"));
}

#[test]
fn name_is_taken_literally() {
    assert!(uses_package("require(\"a.b\")", "a.b"));
    assert!(!uses_package("require(\"axb\")", "a.b"));
    assert!(!uses_package("require(\"aaa\")", "a+"));
    assert!(uses_package("require(\"a+\")", "a+"));
    assert!(uses_package("import x from '@scope/pkg'", "@scope/pkg"));
    assert!(uses_package("require(\"(x|y)\")", "(x|y)"));
    assert!(!uses_package("require(\"x\")", "(x|y)"));
    assert!(uses_package("require(\"a\\b\")", "a\\b"));
    assert!(!uses_package("require(\"anything\")", ".*"));
}

#[test]
fn empty_name_matches_only_empty_quotes() {
    assert!(uses_package("require(\"\")", ""));
    assert!(uses_package("import x from ''", ""));
    assert!(!uses_package("require(\"react\")", ""));
}

#[test]
fn text_beyond_ascii_is_read_by_characters() {
    assert!(uses_package("import é from \"react\"", "react"));
    assert!(uses_package("// héllo wörld\nrequire('réact')", "réact"));
    assert!(!uses_package("require('réact')", "react"));
    assert!(uses_package("import 日本 from '日本語'", "日本語"));
}

#[test]
fn name_is_case_sensitive() {
    assert!(!uses_package("require(\"React\")", "react"));
    assert!(!uses_package("Require(\"react\")", "react"));
    assert!(!uses_package("Import x from \"react\"", "react"));
}

#[test]
fn usage_at_the_very_end_and_start() {
    assert!(uses_package("require(\"a\")", "a"));
    assert!(uses_package("xrequire(\"a\")", "a"));
    assert!(uses_package("import x from \"a\"", "a"));
    assert!(!uses_package("import x from \"a", "a"));
    assert!(!uses_package("equire(\"a\")", "a"));
}
