use flowstorm::state::Form;
use flowstorm::util_types::CallStackTree;
use flowstorm::util_types::SortedForms;

#[test]
fn sorted_forms_basic_test() {
    let mut sfs = SortedForms::new();

    sfs.insert(1, Form::new(1, "testns".to_string(), "Form1".to_string(), 50).unwrap());
    sfs.insert(2, Form::new(2, "testns".to_string(), "Form2".to_string(), 10).unwrap());
    sfs.insert(3, Form::new(3, "testns".to_string(), "Form3".to_string(), 70).unwrap());
    sfs.insert(4, Form::new(4, "testns".to_string(), "Form4".to_string(), 20).unwrap());
    sfs.insert(5, Form::new(5, "testns".to_string(), "Form5".to_string(), 11).unwrap());

    assert_eq!(sfs.get(&1).unwrap().timestamp, 50);
    assert_eq!(sfs.get(&2).unwrap().timestamp, 10);
    assert_eq!(sfs.get(&3).unwrap().timestamp, 70);

    let mut rv: Vec<u64> = Vec::new();
    let mut it = sfs.iter();
    loop {
        match it.next() {
            Some(f) => rv.push(f.timestamp),
            None => break,
        }
    }
    assert_eq!(rv, vec![70, 50, 20, 11, 10]);
}

#[test]
fn call_stack_tree_pop_on_empty_is_ignored_test() {
    let mut tree = CallStackTree::new(0);
    assert_eq!(tree.stack.len(), 1);
    tree.pop();
    assert_eq!(tree.stack.len(), 0);
    tree.pop();
    assert_eq!(tree.stack.len(), 0);
    tree.call(5);
    assert_eq!(tree.stack.len(), 1);
    assert_eq!(tree.nodes.len(), 2);
    assert_eq!(tree.nodes[0].childs, vec![1]);
}
