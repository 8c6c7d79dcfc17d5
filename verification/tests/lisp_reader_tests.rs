use flowstorm::lisp_reader::read_str;
use flowstorm::lisp_reader::PrintableLispForm;

#[test]
fn read_string_test() {
    let mut r_str = String::from("");
    if let Some(form) = read_str("\"this is a string\"") {
        if let PrintableLispForm::String(s) = form {
            r_str = s;
        }
    }
    assert_eq!(r_str, String::from("this is a string"));
}

#[test]
fn read_atomic_token_test() {
    let mut r_str = String::from("");
    if let Some(form) = read_str("some_token") {
        if let PrintableLispForm::Atomic(s, _) = form {
            r_str = s;
        }
    }
    assert_eq!(r_str, String::from("some_token"));
}

#[test]
fn read_delimited_vec_simple_test() {
    let mut r: Vec<PrintableLispForm> = Vec::new();
    if let Some(form) = read_str("[1 2 3 4]") {
        if let PrintableLispForm::Vector { childs, style: _, coord: _ } = form {
            r = childs;
        }
    }
    assert_eq!(r.len(), 4);
}

#[test]
fn read_delimited_vec_nested_test() {
    let mut r: Vec<PrintableLispForm> = Vec::new();
    if let Some(form) = read_str("[#{1 something} 8 [2 3] (hello \"world\" 5)]") {
        if let PrintableLispForm::Vector { childs, style: _, coord: _ } = form {
            r = childs;
        }
    }
    assert_eq!(r.len(), 4);
}

#[test]
fn read_str_map_test() {
    let mut rkeys: Vec<PrintableLispForm> = Vec::new();
    let mut rvals: Vec<PrintableLispForm> = Vec::new();
    if let Some(form) = read_str("{1 2 3 4}") {
        if let PrintableLispForm::MapForm { keys, vals, style: _, coord: _ } = form {
            rkeys = keys;
            rvals = vals;
        }
    }
    assert_eq!(rkeys.len(), 2);
    assert_eq!(rvals.len(), 2);
}

#[test]
fn read_str_code_1_test() {
    let mut r: Vec<PrintableLispForm> = Vec::new();
    if let Some(form) = read_str("(defn factorial [n] (if (zero? n) 1 (* n (factorial (dec n)))))")
    {
        if let PrintableLispForm::List { childs, style: _, coord: _ } = form {
            r = childs;
        }
    }
    assert_eq!(r.len(), 4);
}

#[test]
fn read_str_code_2_test() {
    let mut r: Vec<PrintableLispForm> = Vec::new();
    if let Some(form) = read_str("(let [a [1 2 3] b {:n/a 1, :c 2}] a)") {
        if let PrintableLispForm::List { childs, style: _, coord: _ } = form {
            r = childs;
        }
    }
    assert_eq!(r.len(), 3);
}

#[test]
fn to_string_test() {
    let input = "(let [a #{1 2} b [1/3 2] c (\"1\" 2)] (concat a b c))";

    if let Some(form) = read_str(input) {
        assert_eq!(form.to_string(), String::from(input));
    } else {
        assert!(false);
    }
}

#[test]
fn tagged_1_test() {
    let input = "#atom[{1 2} 0x25176608]";

    if let Some(form) = read_str(input) {
        assert_eq!(form.to_string(), String::from(input));
    } else {
        assert!(false);
    }
}

#[test]
fn regex_test() {
    let input = r#"(str/split something #".*")"#;

    if let Some(form) = read_str(input) {
        println!("{:?}", form);
        assert_eq!(form.to_string(), String::from(input));
    } else {
        assert!(false);
    }
}

#[test]
fn read_str_unterminated_is_error_test() {
    assert!(read_str("(a b").is_none());
    assert!(read_str("\"no closing quote").is_none());
    assert!(read_str("").is_none());
}
