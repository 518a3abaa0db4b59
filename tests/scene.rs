use wander::lang::Lang;
use wander::scene::{edible, Predicate, Scene, Value};
use wander::sentence::{NounClause, Sentence};

const RULES: &str = "S: Verb NounClause
S: Verb NounClause PrepClause
S: QVerb NounClause Type
S: QVerb NounClause PrepClause Type
NounClause: Count ANoun
ANoun: Adjective Noun | noun
PrepClause: Prep NounClause
Count: definiteArticle | indefiniteArticle | number
Verb: verb
QVerb: qVerb
Type: type
Adjective: adjective
Noun: noun
Prep: prep
";

const WORDS: &str = "eat verb
does qVerb
is qVerb
the definiteArticle
a indefiniteArticle
two number
green adjective
red adjective
apple noun
table noun
on prep
exist type
edible type
";

fn make_lang() -> Lang {
    let mut lang = Lang::new();
    lang.init_rules(RULES);
    lang.init_words(WORDS);
    lang
}

fn text(s: &str) -> Value {
    Value::String(s.to_string())
}

fn list(items: &[&str]) -> Value {
    Value::Array(items.iter().map(|s| text(s)).collect())
}

fn object(fields: Vec<(&str, Value)>) -> Value {
    Value::Object(fields.into_iter().map(|(k, v)| (k.to_string(), v)).collect())
}

fn red_dirty_apple() -> Value {
    object(vec![
        ("noun", text("apple")),
        ("adjectives", list(&["red", "dirty"])),
        ("is", list(&["edible"])),
    ])
}

fn blotchy_red_apple() -> Value {
    object(vec![
        ("noun", text("apple")),
        ("adjectives", list(&["blotchy", "red"])),
        ("is", list(&["edible"])),
    ])
}

fn test_scene() -> Value {
    object(vec![(
        "children",
        Value::Array(vec![
            red_dirty_apple(),
            object(vec![
                ("noun", text("table")),
                (
                    "children",
                    Value::Array(vec![
                        object(vec![("noun", text("table")), ("adjectives", list(&["red"]))]),
                        blotchy_red_apple(),
                        object(vec![("noun", text("apple")), ("adjectives", list(&["clean"]))]),
                    ]),
                ),
            ]),
        ]),
    )])
}

fn test_sentence(sentence: &str) -> Sentence {
    let lang = make_lang();
    let ast = lang.parse_sentence(sentence).unwrap();
    Sentence::from_ast(&ast).unwrap()
}

#[test]
fn test_ask_exist() {
    let data = test_scene();
    let mut scene = Scene::new(data);
    let sentence = test_sentence("does a red apple exist");
    let result = scene.ask_question(&sentence);
    assert_eq!(true, result);
}

#[test]
fn test_remove_nothing() {
    let data = test_scene();
    let mut scene = Scene::new(data);
    let filters = vec![Predicate::Edible];
    let search_term = NounClause::new("apple".to_string(), None, Some("red".to_string()));
    scene.select(&search_term, &filters, Some(Predicate::Exist));
    assert_eq!(&test_scene(), scene.root());
}

#[test]
fn test_remove_edible() {
    let data = test_scene();
    let mut scene = Scene::new(data);
    let filters = vec![Predicate::Edible];
    let search_term = NounClause::new("apple".to_string(), None, Some("red".to_string()));
    let results = scene.select(&search_term, &filters, Some(Predicate::Remove));
    let sentence = test_sentence("does a red apple exist");
    println!("{:?}\n", results);
    let result = scene.ask_question(&sentence);
    assert_eq!(false, result);
}

#[test]
fn test_ask_edible_is_true_with_component() {
    let data = test_scene();
    let mut scene = Scene::new(data);
    let sentence = test_sentence("is a red apple edible");
    let result = scene.ask_question(&sentence);
    assert_eq!(true, result);
}

#[test]
fn test_ask_edible_is_false_without_component() {
    let data = test_scene();
    let mut scene = Scene::new(data);
    let lang = make_lang();
    let sentence_exists =
        Sentence::from_ast(&lang.parse_sentence("does a red table exist").unwrap()).unwrap();
    let sentence_edible =
        Sentence::from_ast(&lang.parse_sentence("is a red table edible").unwrap()).unwrap();
    assert_eq!(true, scene.ask_question(&sentence_exists));
    assert_eq!(false, scene.ask_question(&sentence_edible));
}

#[test]
fn test_scene_selects_multiple_items() {
    let data = test_scene();
    let mut scene = Scene::new(data);
    let filters = Vec::new();
    let search_term = NounClause::new("apple".to_string(), None, Some("red".to_string()));
    let result = scene.select(&search_term, &filters, None);
    assert_eq!(vec![red_dirty_apple(), blotchy_red_apple()], result);
}

#[test]
fn removal_keeps_other_nodes() {
    let mut scene = Scene::new(test_scene());
    let search_term = NounClause::new("apple".to_string(), None, Some("red".to_string()));
    let removed = scene.select(&search_term, &Vec::new(), Some(Predicate::Remove));
    assert_eq!(vec![red_dirty_apple(), blotchy_red_apple()], removed);
    let expected = object(vec![(
        "children",
        Value::Array(vec![object(vec![
            ("noun", text("table")),
            (
                "children",
                Value::Array(vec![
                    object(vec![("noun", text("table")), ("adjectives", list(&["red"]))]),
                    object(vec![("noun", text("apple")), ("adjectives", list(&["clean"]))]),
                ]),
            ),
        ])]),
    )]);
    assert_eq!(&expected, scene.root());
    let again = scene.select(&search_term, &Vec::new(), None);
    assert!(again.is_empty());
    assert_eq!(false, scene.ask_question(&test_sentence("does a red apple exist")));
    assert_eq!(true, scene.ask_question(&test_sentence("does a red table exist")));
}

#[test]
fn transform_drops_nodes_failing_a_filter() {
    let mut scene = Scene::new(test_scene());
    let search_term = NounClause::new("table".to_string(), None, None);
    let found = scene.select(&search_term, &vec![Predicate::Edible], Some(Predicate::Exist));
    assert!(found.is_empty());
    assert_eq!(
        &object(vec![("children", Value::Array(vec![red_dirty_apple()]))]),
        scene.root()
    );
}

#[test]
fn transform_keeps_nodes_passing_filters() {
    let mut scene = Scene::new(test_scene());
    let search_term = NounClause::new("apple".to_string(), None, None);
    let found = scene.select(&search_term, &vec![Predicate::Edible], Some(Predicate::Exist));
    assert_eq!(vec![red_dirty_apple(), blotchy_red_apple()], found);
    let expected = object(vec![(
        "children",
        Value::Array(vec![
            red_dirty_apple(),
            object(vec![
                ("noun", text("table")),
                (
                    "children",
                    Value::Array(vec![
                        object(vec![("noun", text("table")), ("adjectives", list(&["red"]))]),
                        blotchy_red_apple(),
                    ]),
                ),
            ]),
        ]),
    )]);
    assert_eq!(&expected, scene.root());
}

#[test]
fn removing_a_parent_removes_its_subtree() {
    let mut scene = Scene::new(test_scene());
    let search_term = NounClause::new("table".to_string(), None, None);
    let removed = scene.select(&search_term, &Vec::new(), Some(Predicate::Remove));
    // pre-order: the outer table, then the red table under it
    assert_eq!(2, removed.len());
    assert_eq!(
        &object(vec![("children", Value::Array(vec![red_dirty_apple()]))]),
        scene.root()
    );
}

#[test]
fn select_without_transform_is_repeatable() {
    let mut scene = Scene::new(test_scene());
    let search_term = NounClause::new("apple".to_string(), None, None);
    let first = scene.select(&search_term, &Vec::new(), None);
    assert_eq!(&test_scene(), scene.root());
    let second = scene.select(&search_term, &Vec::new(), None);
    assert_eq!(first, second);
    assert_eq!(3, first.len());
}

#[test]
fn existence_and_property_are_independent() {
    let lang = make_lang();
    let exists = Sentence::from_ast(&lang.parse_sentence("does a red apple exist").unwrap()).unwrap();
    let edible_q = Sentence::from_ast(&lang.parse_sentence("is a red apple edible").unwrap()).unwrap();
    let doc = object(vec![(
        "children",
        Value::Array(vec![object(vec![
            ("noun", text("apple")),
            ("adjectives", list(&["red", "dirty"])),
        ])]),
    )]);
    let mut scene = Scene::new(doc);
    assert_eq!(true, scene.ask_question(&exists));
    assert_eq!(false, scene.ask_question(&edible_q));
}

#[test]
fn question_with_a_place() {
    let mut scene = Scene::new(test_scene());
    assert_eq!(true, scene.ask_question(&test_sentence("does the red apple on a table exist")));
    assert_eq!(false, scene.ask_question(&test_sentence("does the green apple on a table exist")));
    // no green table: the place is not found
    assert_eq!(false, scene.ask_question(&test_sentence("does the red apple on the green table exist")));
}

#[test]
fn statements_are_not_answered() {
    let mut scene = Scene::new(test_scene());
    assert_eq!(false, scene.ask_question(&test_sentence("eat the red apple")));
}

#[test]
fn unknown_question_kind_answers_no() {
    let mut scene = Scene::new(test_scene());
    let subject = NounClause::new("apple".to_string(), None, None);
    let q = Sentence::new(subject, "is".to_string(), None, Some("shiny".to_string()), true);
    assert_eq!(false, scene.ask_question(&q));
}

#[test]
fn predicates_by_name() {
    assert_eq!(Some(Predicate::Exist), Predicate::from_name("exist"));
    assert_eq!(Some(Predicate::Edible), Predicate::from_name("edible"));
    assert_eq!(None, Predicate::from_name("remove"));
    let apple = red_dirty_apple();
    assert!(edible(&apple));
    assert!(Predicate::Exist.test(&apple));
    assert!(!Predicate::Remove.test(&apple));
    let stone = object(vec![("noun", text("stone")), ("is", Value::Array(vec![Value::Null, text("hard")]))]);
    assert!(!edible(&stone));
    assert!(!edible(&Value::Null));
}

#[test]
fn noun_clause_matching() {
    let apple = red_dirty_apple();
    assert!(NounClause::new("apple".to_string(), None, None).matches(&apple));
    assert!(NounClause::new("apple".to_string(), None, Some("dirty".to_string())).matches(&apple));
    assert!(!NounClause::new("apple".to_string(), None, Some("green".to_string())).matches(&apple));
    assert!(!NounClause::new("table".to_string(), None, None).matches(&apple));
    let odd = object(vec![("noun", Value::Number("3".to_string()))]);
    assert!(!NounClause::new("3".to_string(), None, None).matches(&odd));
}

#[test]
fn copy_is_equal() {
    let doc = object(vec![
        ("a", Value::Bool(true)),
        ("b", Value::Number("1.5".to_string())),
        ("c", Value::Null),
        ("children", test_scene()),
    ]);
    assert_eq!(doc, doc.copy());
}

#[test]
fn transform_replaces_non_array_children() {
    let doc = object(vec![("children", text("none")), ("noun", text("box"))]);
    let mut scene = Scene::new(doc);
    let any = NounClause::new("apple".to_string(), None, None);
    scene.select(&any, &Vec::new(), Some(Predicate::Exist));
    assert_eq!(
        &object(vec![("children", Value::Array(Vec::new())), ("noun", text("box"))]),
        scene.root()
    );
    let doc = object(vec![("children", Value::Null)]);
    let mut scene = Scene::new(doc);
    scene.select(&any, &Vec::new(), Some(Predicate::Exist));
    assert_eq!(&object(vec![("children", Value::Null)]), scene.root());
}
