use std::rc::Rc;

use brigadier::arguments::ParsedValue;
use brigadier::context::{CommandContext, ParsedArgument, StringRange};
use brigadier::tree::{CommandId, ModifierId};

#[test]
fn context_for_another_source_keeps_the_rest() {
    let args = Rc::new(vec![(String::from("n"), ParsedArgument::new(4, 6, ParsedValue::Int(12)))]);
    let inner = CommandContext::new("inner", "run 12", Rc::clone(&args), None, StringRange::between(0, 3), None, None, false);
    let outer = CommandContext::new(
        "outer",
        "run 12",
        Rc::clone(&args),
        Some(CommandId(4)),
        StringRange::between(0, 6),
        Some(Rc::new(inner)),
        Some(ModifierId(2)),
        true,
    );
    let copy = outer.clone_for("other");
    assert_eq!(*copy.source(), "other");
    assert_eq!(*outer.source(), "outer");
    assert_eq!(copy.input(), "run 12");
    assert_eq!(copy.command(), Some(CommandId(4)));
    assert_eq!(copy.range(), StringRange::between(0, 6));
    assert_eq!(copy.modifier(), Some(ModifierId(2)));
    assert!(copy.forks());
    assert_eq!(*copy.child().unwrap().source(), "inner");
    assert_eq!(copy.arguments()[0].0, "n");
    assert_eq!(*copy.arguments()[0].1.result(), ParsedValue::Int(12));
    assert_eq!(Rc::strong_count(&args), 4);
}
