use flowstorm::lisp_pprinter::flatten_print_tokens;
use flowstorm::lisp_pprinter::indented_nl;
use flowstorm::lisp_pprinter::join;
use flowstorm::lisp_pprinter::join_coll;
use flowstorm::lisp_pprinter::lisp_form_print_tokens;
use flowstorm::lisp_pprinter::print_tokens_to_str;
use flowstorm::lisp_pprinter::style_lisp_form;
use flowstorm::lisp_pprinter::tokens_width;
use flowstorm::lisp_reader;
use flowstorm::lisp_pprinter::PrintToken;

#[test]
fn indented_nl_test() {
    let toks = indented_nl(3);
    assert_eq!(
        toks,
        vec![PrintToken::Newline, PrintToken::Space, PrintToken::Space, PrintToken::Space]
    );
}

#[test]
fn join_test() {
    assert_eq!(
        join(
            PrintToken::Space,
            vec![PrintToken::String("a".to_string()), PrintToken::String("b".to_string())]
        ),
        vec![
            PrintToken::String("a".to_string()),
            PrintToken::Space,
            PrintToken::String("b".to_string())
        ]
    )
}

#[test]
fn join_coll_test() {
    assert_eq!(
        join_coll(
            vec![PrintToken::Space, PrintToken::Space],
            vec![PrintToken::String("a".to_string()), PrintToken::String("b".to_string())]
        ),
        vec![
            PrintToken::String("a".to_string()),
            PrintToken::Space,
            PrintToken::Space,
            PrintToken::String("b".to_string())
        ]
    )
}

#[test]
fn lisp_form_print_tokens_test() {
    let form1 = lisp_reader::read_str("(\"a\", \"b\")").unwrap();
    let form1_toks = lisp_form_print_tokens(&form1);
    assert_eq!(
        form1_toks,
        vec![
            PrintToken::BlockOpen { val: "(".to_string(), coord: vec![] },
            PrintToken::String("a".to_string()),
            PrintToken::Space,
            PrintToken::String("b".to_string()),
            PrintToken::BlockClose { val: ")".to_string(), coord: vec![] }
        ]
    );
}

#[test]
fn style_lisp_form_test() {
    let mut form1 =
        lisp_reader::read_str("(defn factorial [n] (if (zero? n) 1 (* n (factorial (dec n)))))")
            .unwrap();
    let form1_toks = style_lisp_form(&mut form1, 40);
    println!("{:?}", form1_toks);

    assert_eq!(
        print_tokens_to_str(&form1_toks),
        "(defn factorial [n] \n  (if (zero? n)\n      1\n      (* n (factorial (dec n)))))"
    );
}

#[test]
fn tokens_width_counts_longest_line_test() {
    let toks = vec![
        PrintToken::Atomic { val: "abc".to_string(), coord: vec![] },
        PrintToken::Newline,
        PrintToken::Atomic { val: "ab".to_string(), coord: vec![] },
        PrintToken::Space,
        PrintToken::Atomic { val: "cd".to_string(), coord: vec![] },
    ];
    assert_eq!(tokens_width(&toks), 5);
}

#[test]
fn flatten_print_tokens_test() {
    let toks = vec![
        PrintToken::Atomic { val: "a".to_string(), coord: vec![0] },
        PrintToken::PrintTokensVec(vec![
            PrintToken::Space,
            PrintToken::PrintTokensVec(vec![PrintToken::Atomic {
                val: "b".to_string(),
                coord: vec![1],
            }]),
        ]),
    ];
    let flat = flatten_print_tokens(&toks);
    assert_eq!(
        flat,
        vec![
            PrintToken::Atomic { val: "a".to_string(), coord: vec![0] },
            PrintToken::Space,
            PrintToken::Atomic { val: "b".to_string(), coord: vec![1] },
        ]
    );
}

#[test]
fn render_linear_round_trip_test() {
    let input = "(a (b c) [d e] {f g} #{h})";
    let form = lisp_reader::read_str(input).unwrap();
    assert_eq!(form.to_string(), input);
}
