use terminal_magic::models::{entry_eq, EntryType};
use terminal_magic::prompts::{
    get_short_names, read, read_array, read_value, Answer, AnswerFeed, Context, CtxValue,
};

fn feed_of(answers: Vec<Answer>) -> AnswerFeed {
    AnswerFeed { answers, pos: 0 }
}

fn ctx_str(ctx: &Context, key: &str) -> Option<String> {
    for (k, v) in ctx.entries.iter() {
        if k == key {
            return match v {
                CtxValue::Str(s) => Some(s.clone()),
                CtxValue::Tree(_) => None,
            };
        }
    }
    None
}

#[test]
fn empty_answer_keeps_the_default() {
    let mut feed = feed_of(vec![Answer::Text(String::new())]);
    let r = read_value("name", "fallback", &mut feed).expect("an answered prompt resolves");
    assert!(entry_eq(&r, &EntryType::Value("fallback".to_string())));
    assert_eq!(feed.pos, 1);
}

#[test]
fn nonempty_answer_replaces_the_default() {
    let mut feed = feed_of(vec![Answer::Text("given".to_string())]);
    let r = read_value("name", "fallback", &mut feed).expect("an answered prompt resolves");
    assert!(entry_eq(&r, &EntryType::Value("given".to_string())));
}

#[test]
fn exhausted_feed_cancels() {
    let mut feed = feed_of(vec![]);
    assert!(read_value("name", "fallback", &mut feed).is_err());
}

#[test]
fn object_fields_resolve_in_order() {
    let proto = EntryType::Object(vec![
        ("first".to_string(), EntryType::Value("a".to_string())),
        ("second".to_string(), EntryType::Value("b".to_string())),
    ]);
    let mut feed = feed_of(vec![
        Answer::Text("one".to_string()),
        Answer::Text("two".to_string()),
    ]);
    let (ctx, resolved) = read("obj", &proto, Context::new(), &mut feed).expect("resolves");
    let expected = EntryType::Object(vec![
        ("first".to_string(), EntryType::Value("one".to_string())),
        ("second".to_string(), EntryType::Value("two".to_string())),
    ]);
    assert!(entry_eq(&resolved, &expected));
    // every resolved scalar lands in the context under its own key
    assert_eq!(ctx_str(&ctx, "first"), Some("one".to_string()));
    assert_eq!(ctx_str(&ctx, "second"), Some("two".to_string()));
}

#[test]
fn list_grows_while_confirmed() {
    // three elements: two affirmative confirmations after the first
    let proto = EntryType::Value("seed".to_string());
    let mut feed = feed_of(vec![
        Answer::Text("e1".to_string()),
        Answer::Confirm(true),
        Answer::Text("e2".to_string()),
        Answer::Confirm(true),
        Answer::Text("e3".to_string()),
        Answer::Confirm(false),
    ]);
    let (_ctx, resolved) = read_array("xs", &proto, Context::new(), &mut feed).expect("resolves");
    let expected = EntryType::Array(vec![
        EntryType::Value("e1".to_string()),
        EntryType::Value("e2".to_string()),
        EntryType::Value("e3".to_string()),
    ]);
    assert!(entry_eq(&resolved, &expected));
    assert_eq!(feed.pos, 6);
}

#[test]
fn an_unanswered_list_confirmation_cancels() {
    let proto = EntryType::Value("seed".to_string());
    let mut feed = feed_of(vec![Answer::Text("only".to_string())]);
    assert!(read_array("xs", &proto, Context::new(), &mut feed).is_err());
}

#[test]
fn list_resolution_injects_short_names() {
    let proto = EntryType::Object(vec![(
        "shortName".to_string(),
        EntryType::Value("s".to_string()),
    )]);
    let mut feed = feed_of(vec![
        Answer::Text("aa".to_string()),
        Answer::Confirm(true),
        Answer::Text("bb".to_string()),
        Answer::Confirm(false),
    ]);
    let (ctx, _resolved) = read_array("xs", &proto, Context::new(), &mut feed).expect("resolves");
    assert_eq!(ctx_str(&ctx, "xs_shortNames"), Some("aa bb".to_string()));
}

#[test]
fn short_names_skip_elements_without_one() {
    let entries = vec![
        EntryType::Object(vec![(
            "shortName".to_string(),
            EntryType::Value("zsh".to_string()),
        )]),
        EntryType::Object(vec![("other".to_string(), EntryType::Value("x".to_string()))]),
        EntryType::Value("plain".to_string()),
        EntryType::Object(vec![(
            "shortName".to_string(),
            EntryType::Value("git".to_string()),
        )]),
    ];
    assert_eq!(get_short_names(entries.as_slice()), "zsh git");
}

#[test]
fn short_names_of_unnamed_elements_are_empty() {
    let entries = vec![EntryType::Value("plain".to_string())];
    assert_eq!(get_short_names(entries.as_slice()), "");
    let empty: Vec<EntryType> = vec![];
    assert_eq!(get_short_names(empty.as_slice()), "");
}

#[test]
fn tilde_free_paths_pass_through_unchanged() {
    let mut feed = feed_of(vec![Answer::Text("plain/path".to_string())]);
    let r = read_value("path", "unused", &mut feed).expect("resolves");
    assert!(entry_eq(&r, &EntryType::Value("plain/path".to_string())));
}
