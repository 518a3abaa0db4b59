use wander::lang::{Lang, ParseError};

const RULES: &str = "S: Verb NounClause
S: Verb NounClause PrepClause
S: QVerb NounClause Type
S: QVerb NounClause PrepClause Type
NounClause: Count ANoun
ANoun: Adjective Noun | noun
PrepClause: Prep NounClause
Count: definiteArticle | indefiniteArticle | number
Verb: verb
QVerb: qVerb
Type: type
Adjective: adjective
Noun: noun
Prep: prep
";

const WORDS: &str = "eat verb
does qVerb
is qVerb
the definiteArticle
a indefiniteArticle
two number
green adjective
red adjective
apple noun
table noun
on prep
exist type
edible type
";

fn make_lang() -> Lang {
    let mut lang = Lang::new();
    lang.init_rules(RULES);
    lang.init_words(WORDS);
    lang
}

#[test]
fn test_produces_ast() {
    let lang = make_lang();
    let test = "eat the green apple on a table";
    let ast = lang.parse_sentence(test).unwrap();
    assert_eq!(
        "((Tagged Verb (Word verb eat)) (Tagged NounClause \
((Tagged Count (Word definiteArticle the)) (Tagged ANoun ((Tagged Adjective \
(Word adjective green)) (Tagged Noun (Word noun apple)))))) (Tagged PrepClause \
((Tagged Prep (Word prep on)) (Tagged NounClause ((Tagged Count (Word \
indefiniteArticle a)) (Tagged ANoun (Word noun table)))))))",
        ast.to_string()
    );
}

#[test]
fn test_unknown_words_produces_error() {
    let lang = make_lang();
    let test = "eat my green horse on a table";
    match lang.parse_sentence(test) {
        Err(error) => assert_eq!(
            "Unknown words:
Not a word: my
Not a word: horse",
            error.to_string()
        ),
        Ok(_) => {
            panic!("Should have failed");
        }
    };
}

#[test]
fn test_bad_grammar_produces_error() {
    let lang = make_lang();
    let test = "eat apple eat apple";
    match lang.parse_sentence(test) {
        Err(error) => assert_eq!("Bad grammar", error.to_string()),
        Ok(_) => {
            panic!("Should have failed");
        }
    };
}

#[test]
fn unknown_words_listed_in_order() {
    let lang = make_lang();
    match lang.parse_sentence("eat my green horse on a table") {
        Err(ParseError::UnknownWords(words)) => {
            assert_eq!(vec!["my".to_string(), "horse".to_string()], words)
        }
        _ => panic!("expected unknown words"),
    }
}

#[test]
fn bad_grammar_variant() {
    let lang = make_lang();
    assert!(matches!(
        lang.parse_sentence("eat apple eat apple"),
        Err(ParseError::BadGrammar)
    ));
}

#[test]
fn empty_sentence_is_rejected() {
    let lang = make_lang();
    assert!(matches!(lang.parse_sentence(""), Err(ParseError::EmptySentence)));
    assert!(matches!(
        lang.parse_sentence("  \t \n"),
        Err(ParseError::EmptySentence)
    ));
    assert_eq!(
        "Zero length sentence",
        lang.parse_sentence("").unwrap_err().to_string()
    );
}

#[test]
fn all_words_unknown_lists_them() {
    let lang = make_lang();
    match lang.parse_sentence("foo bar") {
        Err(e) => assert_eq!("Unknown words:\nNot a word: foo\nNot a word: bar", e.to_string()),
        Ok(_) => panic!("expected unknown words"),
    }
}

#[test]
fn word_without_rule_is_unusable() {
    let mut lang = make_lang();
    lang.init_words("quickly adverb\nslowly adverb2");
    match lang.parse_sentence("eat quickly the slowly apple") {
        Err(e) => {
            assert!(matches!(&e, ParseError::UnusableWord(w) if w == "adverb"));
            assert_eq!("Unusable word adverb", e.to_string());
        }
        Ok(_) => panic!("expected an unusable word"),
    }
}

#[test]
fn extra_whitespace_between_words_is_ignored() {
    let lang = make_lang();
    let a = lang.parse_sentence("eat the green apple on a table").unwrap();
    let b = lang
        .parse_sentence("  eat\tthe  green apple\r\non a   table \n")
        .unwrap();
    assert_eq!(a.to_string(), b.to_string());
}

#[test]
fn two_word_sentence() {
    let lang = make_lang();
    let ast = lang.parse_sentence("eat apple").unwrap_err();
    assert!(matches!(ast, ParseError::BadGrammar));
    let ast = lang.parse_sentence("eat two apple").unwrap();
    assert_eq!(
        "((Tagged Verb (Word verb eat)) (Tagged NounClause ((Tagged Count (Word number two)) (Tagged ANoun (Word noun apple)))))",
        ast.to_string()
    );
}

#[test]
fn parsing_twice_gives_the_same_tree() {
    let lang = make_lang();
    let a = lang.parse_sentence("does the green apple on a table exist").unwrap();
    let b = lang.parse_sentence("does the green apple on a table exist").unwrap();
    assert_eq!(a.to_string(), b.to_string());
    assert_eq!(
        "((Tagged QVerb (Word qVerb does)) (Tagged NounClause ((Tagged Count (Word definiteArticle the)) \
(Tagged ANoun ((Tagged Adjective (Word adjective green)) (Tagged Noun (Word noun apple)))))) \
(Tagged PrepClause ((Tagged Prep (Word prep on)) (Tagged NounClause ((Tagged Count (Word indefiniteArticle a)) \
(Tagged ANoun (Word noun table)))))) (Tagged Type (Word type exist)))",
        a.to_string()
    );
}

#[test]
fn malformed_rules_are_skipped() {
    let mut lang = Lang::new();
    lang.init_rules(
        "S: A B: C\n\
         S: Verb\n\
         S: verb Noun\n\
         S: Verb noun Noun\n\
         S\n\
         S: Verb Noun\n\
         Verb: verb | Noun\n\
         Noun: noun\n",
    );
    lang.init_words("eat verb\napple noun\n");
    let ast = lang.parse_sentence("eat apple").unwrap();
    assert_eq!(
        "((Tagged Verb (Word verb eat)) (Tagged Noun (Word noun apple)))",
        ast.to_string()
    );
    assert!(matches!(lang.parse_sentence("eat"), Err(ParseError::BadGrammar)));
}

#[test]
fn ignored_rules_are_reported() {
    let mut lang = Lang::new();
    let ignored = lang.init_rules(
        "S: A B: C\n\
         S: Verb\n\
         S: verb Noun\n\
         S: Verb noun Noun\n\
         S\n\
         S: Verb Noun |  | Noun\n\
         Noun: noun\n",
    );
    assert_eq!(
        vec![
            "[Ignored] Badly formatted rule \"S: A B: C\"".to_string(),
            "[Ignored] Bad rule S:  Verb\nReason: No unit rules".to_string(),
            "[Ignored] Bad rule S:  verb Noun\nReason: Unions must be between non-terminal vars".to_string(),
            "[Ignored] Bad rule S: noun\nReason: Unions must be between non-terminal vars".to_string(),
            "[Ignored] Badly formatted rule \"S\"".to_string(),
            "[Ignored] Bad rule S:   \nReason: Length must be >=1 for rule".to_string(),
            "[Ignored] Bad rule S:  Noun\nReason: No unit rules".to_string(),
        ],
        ignored
    );
    assert!(lang.init_rules("S: Verb Noun\nVerb: verb\n").is_empty());
}

#[test]
fn first_category_of_a_word_wins() {
    let mut lang = Lang::new();
    lang.init_rules("S: Verb Noun\nVerb: verb\nNoun: noun\n");
    lang.init_words("eat verb\napple noun\neat noun\n\n   \nlonely\n");
    let ast = lang.parse_sentence("eat apple").unwrap();
    assert_eq!(
        "((Tagged Verb (Word verb eat)) (Tagged Noun (Word noun apple)))",
        ast.to_string()
    );
}

#[test]
fn long_rules_flatten_into_one_list() {
    let mut lang = Lang::new();
    lang.init_rules("S: A B C D\nA: a\nB: b\nC: c\nD: d\n");
    lang.init_words("w a\nx b\ny c\nz d\n");
    let ast = lang.parse_sentence("w x y z").unwrap();
    assert_eq!(
        "((Tagged A (Word a w)) (Tagged B (Word b x)) (Tagged C (Word c y)) (Tagged D (Word d z)))",
        ast.to_string()
    );
}

#[test]
fn later_split_point_wins() {
    // "x x x" is an S both as X (X X) and as (X X) X; the later split wins.
    let mut lang = Lang::new();
    lang.init_rules("S: P X | X P\nP: X X\nX: x\n");
    lang.init_words("x x\n");
    let ast = lang.parse_sentence("x x x").unwrap();
    assert_eq!(
        "((Tagged P ((Tagged X (Word x x)) (Tagged X (Word x x)))) (Tagged X (Word x x)))",
        ast.to_string()
    );
}

#[test]
fn single_word_sentence() {
    let mut lang = Lang::new();
    lang.init_rules("S: go\n");
    lang.init_words("run go\n");
    let ast = lang.parse_sentence("run").unwrap();
    assert_eq!("(Word go run)", ast.to_string());
}
