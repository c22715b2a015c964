use brigadier::arguments::{ArgumentKind, BoolArgumentType, StringArgumentType};
use brigadier::context::StringRange;
use brigadier::suggestion::{Suggestion, Suggestions, SuggestionsBuilder};

fn texts(s: &Suggestions) -> Vec<String> {
    s.list().iter().map(|x| x.text().to_string()).collect()
}

#[test]
fn suggestions_expand_to_common_range_and_sort() {
    let mut builder = SuggestionsBuilder::new("he", "he", 0);
    builder.suggest_text("hello");
    builder.suggest_text("help");
    let s = builder.build();
    assert_eq!(texts(&s), vec!["hello", "help"]);
    assert_eq!(s.range(), StringRange::between(0, 2));
    for x in s.list() {
        assert_eq!(x.range(), StringRange::between(0, 2));
    }
}

#[test]
fn bool_suggestions_follow_typed_prefix() {
    let builder = SuggestionsBuilder::new("Tr", "tr", 0);
    let s = BoolArgumentType.list_suggestions(builder);
    assert_eq!(texts(&s), vec!["true"]);
    let builder = SuggestionsBuilder::new("", "", 0);
    let s = BoolArgumentType.list_suggestions(builder);
    assert_eq!(texts(&s), vec!["false", "true"]);
    let builder = SuggestionsBuilder::new("x", "x", 0);
    assert!(BoolArgumentType.list_suggestions(builder).is_empty());
}

#[test]
fn suggest_text_skips_the_text_already_typed() {
    let mut builder = SuggestionsBuilder::new("say hi", "say hi", 4);
    builder.suggest_text("hi");
    builder.suggest_text("hello");
    assert_eq!(builder.remaining(), "hi");
    let s = builder.build();
    assert_eq!(texts(&s), vec!["hello"]);
    assert_eq!(s.range(), StringRange::between(4, 6));
}

#[test]
fn apply_round_trip_leaves_command_unchanged() {
    let s = Suggestion::new_text(StringRange::between(1, 3), "bc");
    assert_eq!(s.apply("abcd"), "abcd");
    let s = Suggestion::new_text(StringRange::between(0, 4), "abcd");
    assert_eq!(s.apply("abcd"), "abcd");
}

#[test]
fn apply_patches_the_range() {
    let s = Suggestion::new_text(StringRange::between(1, 3), "XYZ");
    assert_eq!(s.apply("abcd"), "aXYZd");
    let s = Suggestion::new_text(StringRange::at(4), "!");
    assert_eq!(s.apply("abcd"), "abcd!");
}

#[test]
fn create_widens_each_suggestion() {
    let command = "hello world";
    let a = Suggestion::new_text(StringRange::between(0, 2), "he");
    let b = Suggestion::new_int(StringRange::between(6, 11), 7);
    let s = Suggestions::create(command, vec![a, b]);
    assert_eq!(s.range(), StringRange::between(0, 11));
    assert_eq!(texts(&s), vec!["hello 7", "hello world"]);
    for x in s.list() {
        assert_eq!(x.int_value(), None);
    }
}

#[test]
fn create_keeps_int_at_full_range() {
    let s = Suggestions::create("12", vec![Suggestion::new_int(StringRange::between(0, 2), -42)]);
    assert_eq!(texts(&s), vec!["-42"]);
    assert_eq!(s.list()[0].int_value(), Some(-42));
}

#[test]
fn create_dedups_and_sorts_ignoring_case() {
    let r = StringRange::between(0, 0);
    let items = vec![
        Suggestion::new_text(r, "b"),
        Suggestion::new_text(r, "A"),
        Suggestion::new_text(r, "c"),
        Suggestion::new_text(r, "A"),
        Suggestion::new_text(r, "a"),
    ];
    let s = Suggestions::create("", items);
    assert_eq!(texts(&s), vec!["A", "a", "b", "c"]);
}

#[test]
fn create_is_idempotent() {
    let command = "abc";
    let items = vec![
        Suggestion::new_text(StringRange::between(1, 3), "Zed"),
        Suggestion::new_text(StringRange::between(0, 1), "x"),
        Suggestion::new_text_with_tooltip(StringRange::between(1, 3), "bee", "tip"),
    ];
    let once = Suggestions::create(command, items);
    let again = Suggestions::create(command, once.list().iter().map(|x| x.duplicate()).collect());
    assert_eq!(once, again);
    assert_eq!(texts(&once), vec!["abee", "aZed", "xbc"]);
}

#[test]
fn create_of_nothing_is_empty() {
    let s = Suggestions::create("abc", vec![]);
    assert!(s.is_empty());
    assert_eq!(s, Suggestions::empty());
    assert_eq!(s.range(), StringRange::at(0));
}

#[test]
fn int_suggestions_and_tooltips() {
    let mut builder = SuggestionsBuilder::new("n ", "n ", 2);
    builder.suggest_int(10);
    builder.suggest_int_with_tooltip(-3, "minus three");
    builder.suggest_text_with_tooltip("x", "ex");
    let s = builder.build();
    assert_eq!(texts(&s), vec!["-3", "10", "x"]);
    assert_eq!(s.list()[0].tooltip(), Some("minus three"));
    assert_eq!(s.list()[0].int_value(), Some(-3));
}

#[test]
fn builders_add_and_restart() {
    let mut a = SuggestionsBuilder::new("ab", "ab", 1);
    a.suggest_text("x");
    let mut b = a.restart();
    assert_eq!(b.start(), 1);
    b.suggest_text("y");
    let c = a.create_offset(0);
    assert_eq!(c.remaining(), "ab");
    assert_eq!(c.input(), "ab");
    let merged = a.add(&b).build();
    assert_eq!(texts(&merged), vec!["x", "y"]);
}

#[test]
fn compare_ignoring_case() {
    let r = StringRange::at(0);
    let a = Suggestion::new_text(r, "Apple");
    let b = Suggestion::new_text(r, "apple");
    let c = Suggestion::new_text(r, "Banana");
    assert_eq!(a.cmp_ignore_case(&b), std::cmp::Ordering::Equal);
    assert_eq!(a.cmp_ignore_case(&c), std::cmp::Ordering::Less);
    assert!(!a.same_as(&b));
}

#[test]
fn natural_order_prefers_integers() {
    let r = StringRange::at(0);
    let ten = Suggestion::new_int(r, 10);
    let nine = Suggestion::new_int(r, 9);
    assert_eq!(nine.cmp(&ten), std::cmp::Ordering::Less);
    let a = Suggestion::new_text(r, "10");
    let b = Suggestion::new_text(r, "9");
    assert_eq!(a.cmp(&b), std::cmp::Ordering::Less);
    assert_eq!(ten.cmp(&b), std::cmp::Ordering::Less);
}

#[test]
fn argument_kinds_suggest() {
    let builder = SuggestionsBuilder::new("f", "f", 0);
    let s = ArgumentKind::Bool(BoolArgumentType).list_suggestions(builder);
    assert_eq!(texts(&s), vec!["false"]);
    let builder = SuggestionsBuilder::new("f", "f", 0);
    let s = ArgumentKind::Text(StringArgumentType::SingleWord).list_suggestions(builder);
    assert!(s.is_empty());
}
