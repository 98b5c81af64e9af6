use glabrous::{
    add_tag, clear_values, compress, delete_variables, from_list, from_tags_list, from_template,
    from_text, init_context, insert_many_templates, insert_template, is_final, is_set, join,
    partial_process, partial_process_result, process, process_with_default, set_variables,
    tags_of, tags_rename, to_final_text, to_text, unset_context, variables_of, ProcessResult,
    Template, Token,
};

fn lit(s: &str) -> Token {
    Token::Literal(s.to_string())
}

fn tag(s: &str) -> Token {
    Token::Tag(s.to_string())
}

/// The tokens that a token becomes, written with `str::split` as a plain
/// reference for `add_tag`.
fn reference_split(token: &Token, replacement: &str, name: &str) -> Vec<Token> {
    match token {
        Token::Tag(_) => vec![token.clone()],
        Token::Literal(text) => {
            let mut result = Vec::new();
            let mut pieces = text.split(replacement).peekable();
            while let Some(piece) = pieces.next() {
                if !piece.is_empty() {
                    result.push(lit(piece));
                }
                if pieces.peek().is_some() {
                    result.push(tag(name));
                }
            }
            result
        }
    }
}

fn reference_add_tag(template: &Template, replacement: &str, name: &str) -> Option<Template> {
    let content: Vec<Token> = template
        .content
        .iter()
        .flat_map(|t| reference_split(t, replacement, name))
        .collect();
    if content.len() > template.content.len() {
        Some(Template { content })
    } else {
        None
    }
}

#[test]
fn from_text_reports_unclosed_tag_position() {
    assert_eq!(from_text("Hello {{name"), Err("unclosed tag at position 6".to_string()));
    assert_eq!(from_text("{{}}"), Err("unclosed tag at position 0".to_string()));
    assert_eq!(from_text("a{{{b"), Err("unclosed tag at position 1".to_string()));
    assert_eq!(from_text("x {{a}"), Err("unclosed tag at position 2".to_string()));
}

#[test]
fn from_text_reports_whitespace_tag_position() {
    assert_eq!(from_text("{{a b}}"), Err("whitespace in tag at position 0".to_string()));
    assert_eq!(from_text("ab {{ c}}"), Err("whitespace in tag at position 3".to_string()));
}

#[test]
fn from_text_positions_count_utf8_bytes() {
    assert_eq!(from_text("é{{a"), Err("unclosed tag at position 2".to_string()));
    assert_eq!(from_text("日本{{a b}}"), Err("whitespace in tag at position 6".to_string()));
    let long = format!("{}{{{{", "x".repeat(12345));
    assert_eq!(from_text(&long), Err("unclosed tag at position 12345".to_string()));
}

#[test]
fn from_text_white_space_matches_std() {
    let mut chars: Vec<char> = (0u32..0x3100).filter_map(char::from_u32).collect();
    chars.extend(['\u{feff}', '\u{200b}', '\u{10ffff}', '\u{1f600}']);
    for c in chars {
        if c == '{' || c == '}' {
            continue;
        }
        let text = format!("{{{{a{}b}}}}", c);
        assert_eq!(from_text(&text).is_err(), c.is_whitespace(), "char {:?}", c);
    }
}

#[test]
fn from_text_reads_brace_runs_as_literals() {
    let template = from_text("}{{a}}").expect("parse should succeed");
    assert_eq!(template.content, vec![lit("}{{"), lit("a"), lit("}}")]);
    let template = from_text("a{b}c").expect("parse should succeed");
    assert_eq!(template.content, vec![lit("a"), lit("{"), lit("b"), lit("}"), lit("c")]);
    let template = from_text("{{a}}}").expect("parse should succeed");
    assert_eq!(template.content, vec![tag("a"), lit("}")]);
}

#[test]
fn from_text_then_to_text_gives_the_text_back() {
    for text in [
        "",
        "plain",
        "Hello {{name}}!",
        "{{a}}{{b}}",
        "}{{a}}",
        "a{b}c",
        "{{é}} and 日本 {{x_y.z}}",
        "}}}}{",
    ] {
        let template = from_text(text).expect("parse should succeed");
        assert_eq!(to_text(&template), text);
        assert_eq!(from_text(&to_text(&template)), Ok(template));
    }
}

#[test]
fn add_tag_matches_split_reference() {
    let templates = [
        from_text("a-b-a").unwrap(),
        from_text("--x--").unwrap(),
        from_text("{{keep}} text text").unwrap(),
        from_text("aaaa").unwrap(),
        from_text("héllo wörld").unwrap(),
        Template { content: vec![lit(""), lit("ab"), tag("t")] },
    ];
    for template in templates.iter() {
        for replacement in ["-", "a", "aa", "", "text", "ö", "zzz"] {
            assert_eq!(
                add_tag(template, replacement, "n"),
                reference_add_tag(template, replacement, "n"),
                "{:?} {:?}",
                template,
                replacement
            );
        }
    }
}

#[test]
fn add_tag_with_empty_replacement_surrounds_characters() {
    let template = from_text("ab").unwrap();
    let result = add_tag(&template, "", "t").expect("tags should be added");
    assert_eq!(result.content, vec![tag("t"), lit("a"), tag("t"), lit("b"), tag("t")]);
}

#[test]
fn add_tag_then_process_gives_original_text() {
    let template = from_text("Hello world, {{who}}: world!").unwrap();
    let tagged = add_tag(&template, "world", "w").expect("tag should be added");
    let context = from_list(&[("w", "world"), ("who", "you")]);
    assert_eq!(process(&tagged, &context), process(&template, &context));
    assert_eq!(process(&tagged, &context), "Hello world, you: world!");
}

#[test]
fn tags_rename_later_rename_counts() {
    let template = from_text("{{a}}").unwrap();
    let result = tags_rename(&[("a", "x"), ("a", "y")], &template);
    assert_eq!(result.content, vec![tag("y")]);
}

#[test]
fn compress_keeps_text_and_tags() {
    let template = Template { content: vec![lit("a"), lit("b"), tag("t"), lit("c"), lit(""), lit("d")] };
    let compressed = compress(&template);
    assert_eq!(compressed.content, vec![lit("ab"), tag("t"), lit("cd")]);
    assert_eq!(to_text(&compressed), to_text(&template));
    assert_eq!(tags_of(&compressed), tags_of(&template));
}

#[test]
fn insert_template_equals_insert_many_with_one_pair() {
    let template = from_text("A{{x}}B{{x}}C").unwrap();
    let inserted = from_text("[{{y}}]").unwrap();
    let one = insert_template(&template, &tag("x"), &inserted);
    let many = insert_many_templates(&template, &[(&tag("x"), &inserted)]);
    assert_eq!(one, many);
    assert_eq!(to_text(&one.unwrap()), "A[{{y}}]B[{{y}}]C");
}

#[test]
fn insert_many_templates_last_pair_counts() {
    let template = from_text("{{x}}").unwrap();
    let first = from_text("1").unwrap();
    let second = from_text("2").unwrap();
    let result = insert_many_templates(&template, &[(&tag("x"), &first), (&tag("x"), &second)]);
    assert_eq!(result, None);
    let template = from_text("{{x}}{{x}}").unwrap();
    let result = insert_many_templates(&template, &[(&tag("x"), &first), (&tag("x"), &second)])
        .expect("both tags occur in order");
    assert_eq!(result.content, vec![lit("2"), lit("2")]);
}

#[test]
fn insert_many_templates_rejects_literal_tokens() {
    let template = from_text("a{{x}}").unwrap();
    let inserted = from_text("1").unwrap();
    assert_eq!(insert_many_templates(&template, &[(&lit("a"), &inserted)]), None);
    assert_eq!(insert_many_templates(&template, &[]), Some(template.clone()));
}

#[test]
fn process_equals_final_text_of_partial_process() {
    let template = from_text("{{a}} and {{b}} or {{c}}").unwrap();
    let context = from_list(&[("a", "1"), ("c", "3")]);
    assert_eq!(process(&template, &context), to_final_text(&partial_process(&template, &context)));
    assert_eq!(process(&template, &context), "1 and  or 3");
    assert_eq!(process_with_default("?", &template, &context), "1 and ? or 3");
}

#[test]
fn partial_process_result_context_matches_from_template() {
    let template = from_text("{{a}} {{b}} {{b}} {{c}}").unwrap();
    let context = from_list(&[("a", "1")]);
    match partial_process_result(&template, &context) {
        ProcessResult::Partial { template: rest, context: unset } => {
            assert_eq!(unset, from_template(&rest));
            assert_eq!(unset.variables.len(), 2);
            assert!(!is_final(&rest));
        }
        ProcessResult::Final(_) => panic!("expected Partial"),
    }
}

#[test]
fn partial_process_is_idempotent() {
    let template = from_text("{{a}}{{b}}").unwrap();
    let context = from_list(&[("a", "{{b}}")]);
    let once = partial_process(&template, &context);
    assert_eq!(partial_process(&once, &context), once);
}

#[test]
fn from_list_later_pair_counts() {
    let context = from_list(&[("a", "1"), ("a", "2")]);
    assert_eq!(context.variables.get("a"), Some(&"2".to_string()));
    assert_eq!(context.variables.len(), 1);
}

#[test]
fn contexts_compare_as_maps() {
    assert_eq!(from_list(&[("a", "1"), ("b", "2")]), from_list(&[("b", "2"), ("a", "1")]));
    assert_ne!(from_list(&[("a", "1")]), from_list(&[("a", "2")]));
    assert_ne!(from_list(&[("a", "1")]), from_list(&[("a", "1"), ("b", "2")]));
}

#[test]
fn set_then_delete_variables() {
    let context = set_variables(&[("x", "1"), ("y", "2")], &from_tags_list(&["x", "z"]));
    assert_eq!(context.variables.get("x"), Some(&"1".to_string()));
    assert_eq!(context.variables.get("z"), Some(&"".to_string()));
    let context = delete_variables(&["x", "w"], &context);
    assert_eq!(context.variables.get("x"), None);
    assert!(context.variables.contains_key("y"));
    let mut names = variables_of(&context);
    names.sort();
    assert_eq!(names, vec!["y".to_string(), "z".to_string()]);
}

#[test]
fn is_set_agrees_with_unset_context() {
    for context in [init_context(), from_list(&[("a", "")]), from_list(&[("a", "x"), ("b", "")])] {
        assert_eq!(is_set(&context), unset_context(&context).is_none());
    }
}

#[test]
fn join_is_symmetric_on_success() {
    let a = from_list(&[("a", "1")]);
    let b = from_list(&[("b", "2")]);
    assert_eq!(join(&a, &b), join(&b, &a));
    let c = from_list(&[("a", "3"), ("c", "4")]);
    let shared = join(&c, &a).expect_err("shared names");
    assert_eq!(shared, from_list(&[("a", "3")]));
}

#[test]
fn clear_values_empties_every_value() {
    let context = from_list(&[("tag", "replacement"), ("etc.", "...")]);
    let cleared = clear_values(&context);
    assert_eq!(cleared, from_tags_list(&["etc.", "tag"]));
}

#[test]
fn context_to_string_joins_in_kept_order() {
    let context = from_list(&[("a", "1"), ("b", "2"), ("c", "")]);
    assert_eq!(context.to_string(), "{a: 1, b: 2, c: }");
    assert_eq!(init_context().to_string(), "{}");
}

#[test]
fn template_to_string_is_to_text() {
    let template = from_text("x {{y}} z").unwrap();
    assert_eq!(template.to_string(), to_text(&template));
    assert_eq!(tag("y").to_string(), "{{y}}");
}

#[test]
fn partial_process_is_final_iff_result_is_final() {
    let template = from_text("{{a}}-{{b}}").unwrap();
    for context in [from_list(&[("a", "1")]), from_list(&[("a", "1"), ("b", "2")]), init_context()] {
        let final_result = matches!(partial_process_result(&template, &context), ProcessResult::Final(_));
        assert_eq!(is_final(&partial_process(&template, &context)), final_result);
    }
}

#[test]
fn partial_process_twice_is_once_with_both() {
    let template = from_text("{{a}}{{b}}{{c}}").unwrap();
    let first = from_list(&[("a", "1"), ("b", "2")]);
    let second = from_list(&[("b", "x"), ("c", "3")]);
    let twice = partial_process(&partial_process(&template, &first), &second);
    let both = set_variables(&[("a", "1"), ("b", "2")], &second);
    assert_eq!(twice, partial_process(&template, &both));
    assert_eq!(to_final_text(&twice), "123");
}

#[test]
fn is_final_iff_no_tags() {
    for text in ["", "abc", "{{a}}", "x{{a}}y", "}{"] {
        let template = from_text(text).unwrap();
        assert_eq!(is_final(&template), tags_of(&template).is_empty());
    }
}

#[test]
fn final_template_texts_agree() {
    let template = from_text("plain {text}").unwrap();
    assert!(is_final(&template));
    let context = from_list(&[("text", "x")]);
    assert_eq!(to_final_text(&template), to_text(&template));
    assert_eq!(process_with_default("?", &template, &context), to_text(&template));
}

#[test]
fn parsed_tokens_are_well_formed() {
    let template = from_text("a{{b}}}{c{{d}}{{e}}").unwrap();
    for token in template.content.iter() {
        match token {
            Token::Tag(name) => {
                assert!(!name.is_empty());
                assert!(!name.contains('{') && !name.contains('}'));
                assert!(!name.chars().any(char::is_whitespace));
            }
            Token::Literal(text) => assert!(!text.is_empty()),
        }
    }
}

#[test]
fn readme_example() {
    let template = from_text("Hello, {{name}}!").unwrap();
    let context = set_variables(&[("name", "World")], &init_context());
    let result = process(&template, &context);
    assert_eq!(result, "Hello, World!");
}

#[test]
fn text_then_tag_reads_as_literal_tag_and_rest() {
    let rest = "mid {{y}} end";
    let whole = format!("ab {{{{x}}}}{}", rest);
    let mut expected = vec![lit("ab "), tag("x")];
    expected.extend(from_text(rest).unwrap().content);
    assert_eq!(from_text(&whole).unwrap().content, expected);
    assert_eq!(from_text("{{x}}").unwrap().content, vec![tag("x")]);
    assert_eq!(from_text("ab {{x}}{{ y}}"), Err("whitespace in tag at position 8".to_string()));
    assert_eq!(from_text("{{y }}"), Err("whitespace in tag at position 0".to_string()));
    for bad in ["ab {{", "ab {{}}", "ab {{x}", "ab {{x{y}}", "ab {{a b}}"] {
        assert!(from_text(bad).is_err(), "{:?}", bad);
    }
}

#[test]
fn text_without_double_brace_is_final() {
    for text in ["", "a{b}c", "}}", "{ {", "x}{y"] {
        let template = from_text(text).expect("parse should succeed");
        assert!(is_final(&template));
    }
}

#[test]
fn to_text_then_from_text_gives_compressed_template() {
    let template = Template { content: vec![lit("a"), lit("b"), tag("x"), lit("c"), tag("y"), tag("z"), lit("d"), lit("e")] };
    assert_eq!(from_text(&to_text(&template)), Ok(compress(&template)));
}

#[test]
fn compress_is_idempotent() {
    let template = Template { content: vec![lit("a"), lit("b"), tag("x"), lit("c"), lit("d")] };
    let once = compress(&template);
    assert_eq!(compress(&once), once);
    assert_eq!(tags_of(&once), tags_of(&template));
}
