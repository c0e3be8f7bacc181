use std::collections::HashMap;

use cuicui_chirp::grammar::parse_chirp;
use cuicui_chirp::interpret::{interpret as run, interpret_within, template_call_name, Op};

#[derive(Debug, Clone, PartialEq, Eq)]
struct Hier {
    name: String,
    methods: HashMap<String, String>,
    children: Vec<Hier>,
}

impl Hier {
    fn new(name: &str) -> Hier {
        Hier { name: name.to_string(), methods: HashMap::new(), children: Vec::new() }
    }
    fn with_method(mut self, name: &str, args: &str) -> Hier {
        self.methods.insert(name.to_string(), args.to_string());
        self
    }
    fn get_index_mut<'a>(&'a mut self, path: &[usize]) -> &'a mut Self {
        let Some((head, tail)) = path.split_first() else {
            return self;
        };
        if let Some(child) = self.children.get_mut(*head) {
            child.get_index_mut(tail)
        } else {
            panic!("bad")
        }
    }
}

fn text(input: &[u8], (start, end): (u32, u32)) -> String {
    String::from_utf8_lossy(&input[start as usize..end as usize]).to_string()
}

/// Replay the operations into a hierarchy of names and methods.
fn interpret(input: &str) -> Hier {
    let bytes = input.as_bytes();
    let file = parse_chirp(bytes).unwrap();
    let mut hierarchy = Hier::new("");
    let mut current: Vec<usize> = vec![];
    for op in run(bytes, &file).unwrap() {
        match op {
            Op::SetName(span) => hierarchy.get_index_mut(&current).name = text(bytes, span),
            Op::Method { name, arguments } => {
                let args: Vec<String> =
                    arguments.iter().map(|a| text(bytes, (a.start, a.end))).collect();
                let args = if args.is_empty() { String::new() } else { format!("({})", args.join(", ")) };
                let hier = hierarchy.get_index_mut(&current);
                hier.methods.insert(text(bytes, name), args);
            }
            Op::StartChildren => current.push(0),
            Op::CompleteChildren => {
                if let Some(last) = current.last_mut() {
                    *last += 1;
                }
            }
            Op::SpawnLeaf => {
                current.push(0);
                if let Some(last) = current.last_mut() {
                    *last += 1;
                }
            }
            _ => {}
        }
    }
    hierarchy
}

#[test]
fn simple() {
    let actual = interpret("Name()");
    assert_eq!(actual, Hier::new("Name"));
}

#[test]
fn padded() {
    let actual = interpret("  Name()  ");
    assert_eq!(actual, Hier::new("Name"));
}

#[test]
fn very_padded() {
    let actual = interpret("  Name     (     )  ");
    assert_eq!(actual, Hier::new("Name"));
}

#[test]
fn comment_padded() {
    let actual = interpret(
        r#"// Foo bar
Name     (     )
// final comment
"#,
    );
    assert_eq!(actual, Hier::new("Name"));
}

#[test]
fn with_method() {
    let actual = interpret("Name(method(10))");
    assert_eq!(actual, Hier::new("Name").with_method("method", "(10)"));
    let actual = interpret("Name(method  (10)  )");
    assert_eq!(actual, Hier::new("Name").with_method("method", "(10)"));
}

/// The operations, with names and arguments read as text.
fn ops(input: &str) -> Vec<String> {
    let bytes = input.as_bytes();
    let file = parse_chirp(bytes).unwrap();
    show(bytes, run(bytes, &file).unwrap())
}

/// Operations with names and arguments read as text.
fn show(bytes: &[u8], ops: Vec<Op>) -> Vec<String> {
    ops.into_iter()
        .map(|op| match op {
            Op::Import { name, alias } => {
                format!("import {} {:?}", text(bytes, name), alias.map(|a| text(bytes, a)))
            }
            Op::RegisterFn { name, index } => format!("fn {} {index}", text(bytes, name)),
            Op::Code(span) => format!("code {}", text(bytes, span)),
            Op::SetName(span) => format!("name {}", text(bytes, span)),
            Op::Method { name, arguments } => {
                let args: Vec<String> =
                    arguments.iter().map(|a| text(bytes, (a.start, a.end))).collect();
                format!("{}({})", text(bytes, name), args.join(", "))
            }
            Op::StartChildren => "{".to_string(),
            Op::CompleteChildren => "}".to_string(),
            Op::SpawnLeaf => "leaf".to_string(),
            Op::MissingTemplate(span) => format!("missing {}", text(bytes, span)),
        })
        .collect()
}

#[test]
fn nested_children() {
    assert_eq!(
        ops("Root(row) { Child(width(px(10))) \"Named one\"() Entity() }"),
        vec![
            "name Root", "row()", "{", "name Child", "width(px(10))", "leaf",
            "name \"Named one\"", "leaf", "leaf", "}",
        ]
    );
}

#[test]
fn code_and_spawn() {
    assert_eq!(ops("spawn { code(hello) }"), vec!["{", "code hello", "}"]);
}

#[test]
fn template_expansion() {
    let input = "fn button(text, color) { Button(bg(color) label(text)) }\n\
                 Root { button!(\"Ok\", red)(width(10)) }";
    assert_eq!(
        ops(input),
        vec![
            "fn button 0", "name Root", "{", "name Button", "bg(red)", "label(\"Ok\")",
            "width(10)", "leaf", "}",
        ]
    );
}

#[test]
fn template_extras_children() {
    let input = "fn frame() { Frame(border) }\n\
                 Root { frame!() { Inner() } }";
    assert_eq!(
        ops(input),
        vec!["fn frame 0", "name Root", "{", "name Frame", "border()", "{", "name Inner", "leaf", "}", "}"]
    );
}

#[test]
fn forwarded_parameters() {
    let input = "fn inner(x) { Inner(set(x)) }\n\
                 fn outer(y) { inner!(y) }\n\
                 Root { outer!(42) }";
    assert_eq!(
        ops(input),
        vec!["fn inner 0", "fn outer 1", "name Root", "{", "name Inner", "set(42)", "leaf", "}"]
    );
}

#[test]
fn missing_template() {
    assert_eq!(ops("Root { nothing!() }"), vec!["name Root", "{", "missing nothing!", "}"]);
}

#[test]
fn imports_are_reported() {
    assert_eq!(
        ops("use cool as warm\nRoot()"),
        vec!["import cool Some(\"warm\")", "name Root", "leaf"]
    );
}

#[test]
fn endless_template_runs_out_of_fuel() {
    let input = "fn again() { again!() }\nagain!()";
    let file = parse_chirp(input.as_bytes()).unwrap();
    assert!(interpret_within(input.as_bytes(), &file, 200).is_none());
}

#[test]
fn more_fuel_changes_nothing() {
    let input = "fn inner(x) { Inner(set(x)) }\nRoot { inner!(1) Leaf() }";
    let file = parse_chirp(input.as_bytes()).unwrap();
    let bytes = input.as_bytes();
    assert!(interpret_within(bytes, &file, 3).is_none());
    let enough = show(bytes, interpret_within(bytes, &file, 40).unwrap());
    let more = show(bytes, interpret_within(bytes, &file, 4000).unwrap());
    assert_eq!(enough, more);
    assert_eq!(enough, ops(input));
    assert_eq!(
        enough,
        vec!["fn inner 0", "name Root", "{", "name Inner", "set(1)", "leaf", "name Leaf", "leaf", "}"]
    );
}

#[test]
fn template_call_names() {
    assert_eq!(template_call_name(b"button!"), b"button");
    assert_eq!(template_call_name(b""), b"");
}

#[test]
fn later_template_replaces_earlier() {
    let input = "fn t() { First() }\nfn t() { Second() }\nRoot { t!() }";
    assert_eq!(
        ops(input),
        vec!["fn t 0", "fn t 1", "name Root", "{", "name Second", "leaf", "}"]
    );
}

#[test]
fn empty_groups_in_method_arguments() {
    assert_eq!(ops("Root(size(f()) list([]))"), vec!["name Root", "size(f())", "list([])", "leaf"]);
}
