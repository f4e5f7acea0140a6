use atomic_register::editor::{transform, Action, Operation};

fn op(process_rank: usize, action: Action) -> Operation {
    Operation { process_rank, action }
}

fn insert(idx: usize, ch: char) -> Action {
    Action::Insert { idx, ch }
}

fn delete(idx: usize) -> Action {
    Action::Delete { idx }
}

fn applied(text: &str, actions: &[Action]) -> String {
    let mut text = text.to_string();
    for action in actions {
        action.apply_to(&mut text);
    }
    text
}

#[test]
fn actions_edit_the_text() {
    assert_eq!(applied("abc", &[insert(0, 'x')]), "xabc");
    assert_eq!(applied("abc", &[insert(3, 'x')]), "abcx");
    assert_eq!(applied("abc", &[insert(1, 'x')]), "axbc");
    assert_eq!(applied("abc", &[delete(0)]), "bc");
    assert_eq!(applied("abc", &[delete(2)]), "ab");
    assert_eq!(applied("abc", &[Action::Nop]), "abc");
    assert_eq!(applied("", &[insert(0, 'x'), insert(1, 'y'), delete(0)]), "y");
}

#[test]
fn nothing_changes_next_to_a_nop() {
    assert_eq!(transform(op(1, Action::Nop), op(2, insert(0, 'a'))), op(1, Action::Nop));
    assert_eq!(transform(op(1, insert(3, 'a')), op(2, Action::Nop)), op(1, insert(3, 'a')));
    assert_eq!(transform(op(1, delete(3)), op(2, Action::Nop)), op(1, delete(3)));
}

#[test]
fn deletions_follow_the_text() {
    assert_eq!(transform(op(1, delete(2)), op(2, delete(5))), op(1, delete(2)));
    assert_eq!(transform(op(1, delete(5)), op(2, delete(5))), op(1, Action::Nop));
    assert_eq!(transform(op(1, delete(6)), op(2, delete(5))), op(1, delete(5)));
    assert_eq!(transform(op(1, delete(2)), op(2, insert(5, 'x'))), op(1, delete(2)));
    assert_eq!(transform(op(1, delete(5)), op(2, insert(5, 'x'))), op(1, delete(6)));
    assert_eq!(transform(op(1, delete(7)), op(2, insert(5, 'x'))), op(1, delete(8)));
}

#[test]
fn insertions_follow_deletions() {
    assert_eq!(transform(op(1, insert(5, 'a')), op(2, delete(5))), op(1, insert(5, 'a')));
    assert_eq!(transform(op(1, insert(4, 'a')), op(2, delete(5))), op(1, insert(4, 'a')));
    assert_eq!(transform(op(1, insert(6, 'a')), op(2, delete(5))), op(1, insert(5, 'a')));
}

#[test]
fn insertions_at_one_place_go_by_rank() {
    assert_eq!(transform(op(1, insert(2, 'a')), op(2, insert(5, 'b'))), op(1, insert(2, 'a')));
    assert_eq!(transform(op(1, insert(5, 'a')), op(2, insert(5, 'b'))), op(1, insert(5, 'a')));
    assert_eq!(transform(op(2, insert(5, 'a')), op(1, insert(5, 'b'))), op(2, insert(5, 'b')));
    assert_eq!(transform(op(1, insert(7, 'a')), op(2, insert(5, 'b'))), op(1, insert(7, 'b')));
}

#[test]
fn both_orders_give_one_text() {
    let text = "abcdefgh";
    let mut actions = vec![Action::Nop];
    for idx in 0..text.len() {
        actions.push(delete(idx));
        actions.push(insert(idx, 'X'));
    }
    actions.push(insert(text.len(), 'X'));
    for first in &actions {
        for second in &actions {
            if matches!(first, Action::Insert { .. }) && matches!(second, Action::Insert { .. }) {
                continue;
            }
            let one = op(1, first.clone());
            let two = op(2, second.clone());
            let left = applied(text, &[second.clone(), transform(one.clone(), two.clone()).action]);
            let right = applied(text, &[first.clone(), transform(two, one).action]);
            assert_eq!(left, right, "{:?} and {:?}", first, second);
        }
    }
}
