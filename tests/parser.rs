use recipe_lang::{parse, render_all, ErrorKind, ParseError, Token};

fn tokens(input: &str) -> Vec<Token<'_>> {
    let (rest, tokens) = parse(input).expect("parsing recipe failed");
    assert_eq!(rest, "");
    tokens
}

fn prose(input: &str) -> String {
    let recipe = tokens(input);
    recipe.iter().fold(String::new(), |acc, val| format!("{acc}{}", val.render()))
}

fn first(input: &str) -> Token<'_> {
    tokens(input)[0]
}

#[test]
fn test_parse_ok() {
    let input = "Boil the quinoa for t{5 minutes} in a m{pot}.\nPut the boiled {quinoa}(200gr) in the base of the bowl.";
    let expected = "Boil the quinoa for 5 minutes in a pot.\nPut the boiled quinoa in the base of the bowl.";
    let fmt_recipe = prose(input);
    println!("{}", fmt_recipe);
    assert_eq!(expected, fmt_recipe)
}

#[test]
fn test_parse_meta_ok() {
    let input = ">> name: story\nBoil the quinoa for t{5 minutes} in a m{pot}.\nPut the boiled {quinoa}(200gr) in the base of the bowl.";
    let expected = "Boil the quinoa for 5 minutes in a pot.\nPut the boiled quinoa in the base of the bowl.";
    let fmt_recipe = prose(input);
    println!("{}", fmt_recipe);
    assert_eq!(expected, fmt_recipe.trim())
}

#[test]
fn test_recipe_with_comment_ok() {
    let input = "Boil the {quinoa} /* don't do it! */ for t{5 minutes}";
    let expected = "Boil the quinoa for 5 minutes";
    let fmt_recipe = prose(input);
    println!("{}", fmt_recipe);
    assert_eq!(expected, fmt_recipe)
}

#[test]
fn test_invalid_recipes() {
    let input = "this is an {invalid recipe";
    let result = parse(input);
    assert!(result.is_err());
    println!("{result:?}");
    let err = result.unwrap_err();
    println!("type: {:?}", err);
    assert_eq!(err, ParseError { kind: ErrorKind::MissingClosingBrace, at: 26 });
    assert_eq!(err.context(), "missing closing }");
}

#[test]
fn render_all_joins_rendered_tokens() {
    let recipe = tokens("Add {salt}(1 pinch) /* to taste */and stir");
    assert_eq!(render_all(&recipe), "Add salt and stir");
}

#[test]
fn payload_characters_are_accepted() {
    let cases = [
        "salt", "sweet potato", "ToMaToeS", "1/2 lemon", "my-best-sauce", "1.2", "1,2", "1_200",
        "@woile", "10%", "#vegan", "mango's",
    ];
    for case in cases {
        let input = format!("{{{case}}}");
        assert_eq!(first(&input), Token::Ingredient { name: case, amount: None });
    }
}

#[test]
fn non_ascii_letters_are_payload() {
    assert_eq!(first("{café}"), Token::Ingredient { name: "café", amount: None });
    assert_eq!(first("m{ñandú}"), Token::Material("ñandú"));
}

#[test]
fn non_ascii_symbol_breaks_payload() {
    let err = parse("{a→b}").unwrap_err();
    assert_eq!(err, ParseError { kind: ErrorKind::MissingClosingBrace, at: 2 });
}

#[test]
fn curly_payload_is_trimmed() {
    let cases = [
        ("{salt}", "salt"),
        ("{black pepper}", "black pepper"),
        ("{smashed potatoes}", "smashed potatoes"),
        ("{15 minutes}", "15 minutes"),
        ("{   15 minutes  }", "15 minutes"),
    ];
    for (input, expected) in cases {
        assert_eq!(first(input), Token::Ingredient { name: expected, amount: None });
    }
}

#[test]
fn trimming_gives_the_same_name() {
    assert_eq!(first("{  foo  }"), first("{foo}"));
    assert_eq!(first("{  foo  }"), Token::Ingredient { name: "foo", amount: None });
    assert_eq!(first("{\tfoo \t}"), Token::Ingredient { name: "foo", amount: None });
}

#[test]
fn empty_braces_are_a_word() {
    assert_eq!(tokens("{}"), vec![Token::Word("{}")]);
    assert_eq!(tokens("m{}"), vec![Token::Word("m{}")]);
}

#[test]
fn unclosed_brace_fails() {
    let err = parse("{unclosed").unwrap_err();
    assert_eq!(err.kind, ErrorKind::MissingClosingBrace);
    assert_eq!(err.at, 9);
    let err = parse("m{pot").unwrap_err();
    assert_eq!(err, ParseError { kind: ErrorKind::MissingClosingBrace, at: 5 });
    let err = parse("t{5 min!}").unwrap_err();
    assert_eq!(err, ParseError { kind: ErrorKind::MissingClosingBrace, at: 7 });
}

#[test]
fn amounts_are_kept_as_written() {
    let cases = [
        ("{x}(200gr)", "200gr"),
        ("{x}(1/2)", "1/2"),
        ("{x}(100 gr)", "100 gr"),
        ("{x}(10 ml)", "10 ml"),
        ("{x}(1.5 cups)", "1.5 cups"),
        ("{x}( 2 )", " 2 "),
    ];
    for (input, expected) in cases {
        assert_eq!(first(input), Token::Ingredient { name: "x", amount: Some(expected) });
    }
}

#[test]
fn empty_parens_are_not_an_amount() {
    assert_eq!(
        tokens("{x}()"),
        vec![Token::Ingredient { name: "x", amount: None }, Token::Word("()")]
    );
}

#[test]
fn unclosed_paren_fails() {
    let err = parse("{x}(unclosed").unwrap_err();
    assert_eq!(err, ParseError { kind: ErrorKind::MissingClosingParen, at: 12 });
    assert_eq!(err.context(), "missing closing )");
}

#[test]
fn ingredient_with_and_without_amount() {
    assert_eq!(
        tokens("{sweet potato}(200gr)"),
        vec![Token::Ingredient { name: "sweet potato", amount: Some("200gr") }]
    );
    assert_eq!(
        tokens("{sweet potato}"),
        vec![Token::Ingredient { name: "sweet potato", amount: None }]
    );
}

#[test]
fn amount_attaches_only_when_adjacent() {
    assert_eq!(
        tokens("{x}(y)"),
        vec![Token::Ingredient { name: "x", amount: Some("y") }]
    );
    assert_eq!(
        tokens("{x} (y)"),
        vec![
            Token::Ingredient { name: "x", amount: None },
            Token::Space(" "),
            Token::Word("(y)"),
        ]
    );
}

#[test]
fn materials_and_timers() {
    let cases = [("m{pot}", "pot"), ("m{small jar}", "small jar"), ("m{stick}", "stick"), ("m{bricks}", "bricks")];
    for (input, expected) in cases {
        assert_eq!(tokens(input), vec![Token::Material(expected)]);
    }
    assert_eq!(tokens("t{1 minute}"), vec![Token::Timer("1 minute")]);
}

#[test]
fn material_and_timer_win_over_ingredient() {
    assert_eq!(tokens("m{x}"), vec![Token::Material("x")]);
    assert_eq!(tokens("t{x}(2)"), vec![Token::Timer("x"), Token::Word("(2)")]);
    assert_eq!(tokens("am{x}"), vec![Token::Word("am{x}")]);
}

#[test]
fn metadata_lines() {
    let cases = [
        ">> tags: vegan\n",
        ">>tags: vegan\n",
        ">>    tags: vegan\n",
        ">>    tags:     vegan\n",
        ">>    tags:\t\tvegan\n",
        ">>    tags:vegan\n",
        ">> tags : vegan  \n",
    ];
    for input in cases {
        assert_eq!(
            tokens(input),
            vec![Token::Metadata { key: "tags", value: "vegan" }, Token::Space("\n")]
        );
    }
}

#[test]
fn metadata_needs_a_line_break() {
    assert_eq!(
        tokens(">> tags: vegan"),
        vec![Token::Word(">>"), Token::Space(" "), Token::Word("tags:"), Token::Space(" "), Token::Word("vegan")]
    );
}

#[test]
fn comments() {
    assert_eq!(tokens("/* */"), vec![Token::Comment("")]);
    assert_eq!(tokens("/* hello */"), vec![Token::Comment("hello")]);
    assert_eq!(tokens("/* multi\nline\ncomment */"), vec![Token::Comment("multi\nline\ncomment")]);
    assert_eq!(tokens("/* a */  b"), vec![Token::Comment("a"), Token::Word("b")]);
    assert_eq!(tokens("/* a */\nb"), vec![Token::Comment("a"), Token::Space("\n"), Token::Word("b")]);
}

#[test]
fn unclosed_comment_is_a_word() {
    assert_eq!(tokens("/*a"), vec![Token::Word("/*a")]);
}

#[test]
fn backstories() {
    let cases = [
        ("\n---\nwhat a backstory", "what a backstory"),
        ("\n   ---\nwhat a backstory", "what a backstory"),
        ("\n   ---\n\nwhat a backstory", "what a backstory"),
        ("\r\n---\r\nwhat a backstory", "what a backstory"),
        ("\n   ---\n\nthis is **markdown**", "this is **markdown**"),
        ("\n   ---\n\nthis is [markdown](url)", "this is [markdown](url)"),
    ];
    for (input, expected) in cases {
        assert_eq!(tokens(input), vec![Token::Backstory(expected)]);
    }
}

#[test]
fn backstory_delimiter_must_end_its_line() {
    assert_eq!(
        tokens("\n---    \nwhat"),
        vec![Token::Space("\n"), Token::Word("---"), Token::Space("    \n"), Token::Word("what")]
    );
}

#[test]
fn backstory_is_the_last_token() {
    let recipe = tokens("Eat {it}\n---\nGrandma's recipe");
    assert_eq!(
        recipe,
        vec![
            Token::Word("Eat"),
            Token::Space(" "),
            Token::Ingredient { name: "it", amount: None },
            Token::Backstory("Grandma's recipe"),
        ]
    );
    assert_eq!(render_all(&recipe), "Eat itGrandma's recipe");
}

#[test]
fn empty_input_fails() {
    let err = parse("").unwrap_err();
    assert_eq!(err, ParseError { kind: ErrorKind::NoToken, at: 0 });
    assert_eq!(err.context(), "a token");
}

#[test]
fn spaces_are_kept_verbatim() {
    assert_eq!(
        tokens("a \t\r\n b"),
        vec![Token::Word("a"), Token::Space(" \t\r\n "), Token::Word("b")]
    );
}

#[test]
fn rendering_of_each_variant() {
    assert_eq!(Token::Metadata { key: "k", value: "v" }.render(), "");
    assert_eq!(Token::Comment("c").render(), "");
    assert_eq!(Token::Ingredient { name: "n", amount: Some("2") }.render(), "n");
    assert_eq!(Token::Timer("5 min").render(), "5 min");
    assert_eq!(Token::Material("pot").render(), "pot");
    assert_eq!(Token::Word("w").render(), "w");
    assert_eq!(Token::Space(" ").render(), " ");
    assert_eq!(Token::Backstory("b").render(), "b");
}

#[test]
fn error_reports_the_unconsumed_input() {
    let input = "add {salt!} now";
    let err = parse(input).unwrap_err();
    assert_eq!(err, ParseError { kind: ErrorKind::MissingClosingBrace, at: 9 });
    assert_eq!(err.remaining(input), "!} now");
    assert_eq!(err.remaining("short"), "");
}
