use greymd::markdown::body::{handle_list_item, ListEntry, ListKind};

fn text(s: &str) -> Vec<char> {
    s.chars().collect()
}

fn shown(out: &[char]) -> String {
    out.iter().collect()
}

#[test]
fn list_item_closes_deeper_lists_and_opens_new_ones() {
    let mut stack = vec![
        ListEntry { kind: ListKind::Unordered, indent: 0 },
        ListEntry { kind: ListKind::Unordered, indent: 2 },
        ListEntry { kind: ListKind::Ordered, indent: 4 },
    ];
    let mut out: Vec<char> = Vec::new();
    handle_list_item(&mut stack, ListKind::Unordered, 2, &text("item"), &mut out);
    assert_eq!(shown(&out), "</ol>\n<li>item</li>\n");
    assert_eq!(stack.len(), 2);
    assert_eq!(stack[1].indent, 2);

    handle_list_item(&mut stack, ListKind::Ordered, 6, &text("x"), &mut out);
    assert_eq!(shown(&out), "</ol>\n<li>item</li>\n<ol>\n<li>x</li>\n");
    assert_eq!(stack.len(), 3);
    assert!(matches!(stack[2].kind, ListKind::Ordered));
    assert_eq!(stack[2].indent, 6);
}

#[test]
fn list_item_on_empty_stack_opens_a_list() {
    let mut stack: Vec<ListEntry> = Vec::new();
    let mut out: Vec<char> = Vec::new();
    handle_list_item(&mut stack, ListKind::Unordered, 3, &text("[x] done"), &mut out);
    assert_eq!(shown(&out), "<ul>\n<li><input type=\"checkbox\" checked disabled> done</li>\n");
    assert_eq!(stack.len(), 1);
    assert_eq!(stack[0].indent, 3);
}

#[test]
fn list_item_keeps_outermost_list() {
    let mut stack = vec![ListEntry { kind: ListKind::Ordered, indent: 4 }];
    let mut out: Vec<char> = Vec::new();
    handle_list_item(&mut stack, ListKind::Ordered, 0, &text("y"), &mut out);
    assert_eq!(shown(&out), "<li>y</li>\n");
    assert_eq!(stack.len(), 1);
    assert_eq!(stack[0].indent, 4);
}
