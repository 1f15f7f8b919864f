use jtl::runtime::{Context, HostFn, ObjectMap, Runtime, Value};

/// The host functions these tests expose to templates.
#[derive(Clone, Copy)]
enum TestFn {
    SayMore,
    GiveNothing,
    GiveObject,
}

impl HostFn for TestFn {
    fn host_call(&self, args: Vec<Value<TestFn>>) -> Option<Value<TestFn>> {
        match self {
            TestFn::SayMore => {
                if args.len() == 1 {
                    if let Value::String(msg) = &args[0] {
                        return Some(Value::String(format!("{}_sayingmore", msg)));
                    }
                    return None;
                }
                None
            },
            TestFn::GiveNothing => None,
            TestFn::GiveObject => Some(Value::Object(ObjectMap::new())),
        }
    }
}

fn guild_context() -> Context<TestFn> {
    let mut context: Context<TestFn> = Context::new();
    let mut guild_object: ObjectMap<TestFn> = ObjectMap::new();
    guild_object.insert("name".to_string(), Value::String("BarFight".to_string()));
    guild_object.insert("saymore".to_string(), Value::Function(TestFn::SayMore));
    guild_object.insert("count".to_string(), Value::Int(17));
    guild_object.insert("quiet".to_string(), Value::Function(TestFn::GiveNothing));
    guild_object.insert("opaque".to_string(), Value::Function(TestFn::GiveObject));
    context.add_object("guild".to_string(), guild_object);
    context
}

#[test]
fn simple_property_runtime() {
    let program = "Hay, {guild.saymore | \"world\"} \n welcome to {guild.name}";
    let runtime = Runtime::new(guild_context());
    let out = runtime.execute(program);
    assert_eq!(out, Ok("Hay, world_sayingmorewelcome to BarFight".to_string()));
}

// End to end: a call with a string argument, then a plain property, with the
// literal text around them kept in order.
#[test]
fn end_to_end_render() {
    let program = "Hay, {guild.saymore|\"world\"} \nwelcome to {guild.name}";
    let runtime = Runtime::new(guild_context());
    let out = runtime.execute(program);
    assert_eq!(out, Ok("Hay, world_sayingmorewelcome to BarFight".to_string()));
}

// A well-formed `{name.sub}` renders the bound string at its place.
#[test]
fn property_renders_bound_string() {
    let runtime = Runtime::new(guild_context());
    assert_eq!(runtime.execute("x{guild.name}"), Ok("xBarFight".to_string()));
}

#[test]
fn integer_renders_decimal() {
    let runtime = Runtime::new(guild_context());
    assert_eq!(runtime.execute("n={guild.count}"), Ok("n=17".to_string()));
}

#[test]
fn call_without_value_renders_placeholder() {
    let runtime = Runtime::new(guild_context());
    assert_eq!(runtime.execute("{guild.quiet}"), Ok("(NONE)".to_string()));
}

#[test]
fn unknown_property_fails() {
    let runtime = Runtime::new(guild_context());
    assert!(runtime.execute("{guild.size}").is_err());
    assert!(runtime.execute("{party.name}").is_err());
}

#[test]
fn traversal_into_non_object_fails() {
    let runtime = Runtime::new(guild_context());
    assert!(runtime.execute("{guild.name.len}").is_err());
}

#[test]
fn object_result_is_not_renderable() {
    let runtime = Runtime::new(guild_context());
    assert!(runtime.execute("{guild.opaque}").is_err());
    assert!(runtime.execute("{guild}").is_err());
}

#[test]
fn diagnostics_refuse_render() {
    let runtime = Runtime::new(guild_context());
    assert!(runtime.execute("h{guild.}").is_err());
}

#[test]
fn lex_failure_refuses_render() {
    let runtime = Runtime::new(guild_context());
    assert!(runtime.execute("{\"unterminated").is_err());
}

#[test]
fn property_argument_is_resolved() {
    let program = "{guild.saymore|guild.name}";
    let runtime = Runtime::new(guild_context());
    assert_eq!(runtime.execute(program), Ok("BarFight_sayingmore".to_string()));
}

#[test]
fn later_binding_shadows_earlier() {
    let mut context: Context<TestFn> = Context::new();
    let mut obj: ObjectMap<TestFn> = ObjectMap::new();
    obj.insert("name".to_string(), Value::String("old".to_string()));
    obj.insert("name".to_string(), Value::String("new".to_string()));
    context.add_object("g".to_string(), obj);
    let runtime = Runtime::new(context);
    assert_eq!(runtime.execute("{g.name}"), Ok("new".to_string()));
}

#[test]
fn empty_source_renders_empty() {
    let runtime = Runtime::new(guild_context());
    assert_eq!(runtime.execute(""), Ok(String::new()));
}

#[test]
fn text_only_source_is_verbatim() {
    let runtime = Runtime::new(guild_context());
    assert_eq!(
        runtime.execute("plain text, no tags."),
        Ok("plain text, no tags.".to_string())
    );
}

// Whatever a host call produces, the text rendered before it stays as the
// output's prefix.
#[test]
fn text_before_call_is_prefix_of_output() {
    let runtime = Runtime::new(guild_context());
    let out = runtime.execute("pre {guild.quiet}").unwrap();
    assert!(out.starts_with("pre "));
    assert_eq!(out, "pre (NONE)");
}
