use risp::default_env::default_env;
use risp::eval::parse_and_eval;
use risp::parser::parse;
use risp::runner::{first_line_status, line_status, ParensStatus};
use risp::types::Exceptions;

fn run(env: &mut risp::types::Environment, src: &str) -> String {
    parse_and_eval(src.to_string(), env)
        .unwrap()
        .to_display_string()
}

fn run_err(env: &mut risp::types::Environment, src: &str) -> Exceptions {
    parse_and_eval(src.to_string(), env).unwrap_err()
}

#[test]
fn iile() {
    // Immediately invoked lambda expression
    let mut env = default_env();
    let expr = "((lambda (x) (+ x 10)) 10)".to_string();
    let eval_expr = parse_and_eval(expr, &mut env).unwrap();
    assert_eq!(eval_expr.to_display_string(), "20");
}

#[test]
fn list_test() {
    let mut env = default_env();
    let list_fn = "(list 1 2 3)".to_string();
    let ans = parse_and_eval(list_fn, &mut env).unwrap();
    assert_eq!(ans.to_display_string(), "(1 2 3)");

    let mapper = "(map (lambda (x) (+ x x)) '(1 2 3 4))".to_string();
    let ans = parse_and_eval(mapper, &mut env).unwrap();
    assert_eq!(ans.to_display_string(), "(2 4 6 8)");
}

#[test]
fn square() {
    let square_fn = "(define square (lambda (x) (* x x)))";
    let mut env = default_env();
    parse_and_eval(square_fn.to_string(), &mut env).unwrap();
    let sq_10 = parse_and_eval("(square 10)".to_string(), &mut env).unwrap();
    assert_eq!(sq_10.to_display_string(), "100");
    let sq = parse_and_eval("(square 5.5)".to_string(), &mut env).unwrap();
    assert_eq!(sq.to_display_string(), "30.25");
}

#[test]
fn fact() {
    let mut env = default_env();
    let fact_fn = "(define fact (lambda (n) (if (<= n 1) 1 (* n (fact (- n 1))))))".to_string();
    parse_and_eval(fact_fn, &mut env).unwrap();
    let fact_10 = parse_and_eval("(fact 10)".to_string(), &mut env).unwrap();
    assert_eq!(fact_10.to_display_string(), "3628800");
    let fact_0 = parse_and_eval("(fact 0)".to_string(), &mut env).unwrap();
    assert_eq!(fact_0.to_display_string(), "1");
    let fact_20 = parse_and_eval("(fact 20)".to_string(), &mut env).unwrap();
    assert_eq!(fact_20.to_display_string(), "2432902008176640000");
}

#[test]
fn fib() {
    let mut env = default_env();
    let fib_fn = "(define (fib x) (
                if (<= x 1) x
                (+ (fib (- x 1)) (fib (- x 2)))
                ))"
    .to_string();
    parse_and_eval(fib_fn, &mut env).unwrap();
    let fib_2 = parse_and_eval("(fib 2)".to_string(), &mut env).unwrap();
    assert_eq!(fib_2.to_display_string(), "1");
    let fib_10 = parse_and_eval("(fib 10)".to_string(), &mut env).unwrap();
    assert_eq!(fib_10.to_display_string(), "55");
}

#[test]
fn test() {}

#[test]
fn fold_identities() {
    let mut env = default_env();
    assert_eq!(run(&mut env, "(+)"), "0");
    assert_eq!(run(&mut env, "(*)"), "1");
    assert_eq!(run(&mut env, "(- 5)"), "-5");
    assert_eq!(run(&mut env, "(- 10 3 2)"), "5");
    assert_eq!(run(&mut env, "(/ 2)"), "0.5");
    assert_eq!(run(&mut env, "(/ 8 2 2)"), "2");
}

#[test]
fn numeric_coercion() {
    let mut env = default_env();
    assert_eq!(run(&mut env, "(+ 1 2)"), "3");
    assert_eq!(run(&mut env, "(/ 1 2)"), "0.5");
    assert_eq!(run(&mut env, "(+ 0.5 0.5)"), "1");
    assert_eq!(run(&mut env, "(* 0.5 0.2)"), "0.1");
    assert_eq!(run(&mut env, "(+ 1.25 1.25)"), "2.5");
}

#[test]
fn scoping() {
    let mut env = default_env();
    run(&mut env, "(define x 1)");
    run(&mut env, "(define f (lambda (x) x))");
    assert_eq!(run(&mut env, "(f 2)"), "2");
    assert_eq!(run(&mut env, "x"), "1");
}

#[test]
fn arity_and_type_faults() {
    let mut env = default_env();
    let e = run_err(&mut env, "((lambda (x) x) 1 2)");
    match &e {
        Exceptions::ValueError(msg) => {
            // The arity fault names the expected and the actual counts.
            assert!(msg.contains('1') && msg.contains('2'), "message was: {msg}");
        }
        other => panic!("expected a value fault, got {other:?}"),
    }
    let e = run_err(&mut env, "(+ 1 \"a\")");
    assert!(matches!(e, Exceptions::ValueError(_)));
}

#[test]
fn non_callable_head_is_a_fault() {
    let mut env = default_env();
    assert!(matches!(run_err(&mut env, "(1 2 3)"), Exceptions::ValueError(_)));
    assert!(matches!(run_err(&mut env, "((+ 1 2) 5)"), Exceptions::ValueError(_)));
    // A quoted list is still returned untouched.
    assert_eq!(run(&mut env, "'(1 2 3)"), "(1 2 3)");
    assert_eq!(run(&mut env, "(cdr '(1 2 3))"), "(2 3)");
}

#[test]
fn native_results_propagate_as_is() {
    let mut env = default_env();
    // The extracted element is returned untouched, never run as code.
    assert_eq!(run(&mut env, "(car (quote ((quote 5))))"), "(quote 5)");
    assert_eq!(run(&mut env, "(car '((+ 1 2)))"), "(+ 1 2)");
    // Running a value as code is opt-in, through the eval form.
    assert_eq!(run(&mut env, "(eval (car (quote ((quote 5)))))"), "5");
    assert_eq!(run(&mut env, "(eval (car '((+ 1 2))))"), "3");
    run(&mut env, "(define y 41)");
    assert_eq!(run(&mut env, "(eval (quote y))"), "41");
    assert!(matches!(run_err(&mut env, "(eval)"), Exceptions::ValueError(_)));
    // A fault inside the opted-in code propagates.
    assert!(matches!(run_err(&mut env, "(eval '(nosuch))"), Exceptions::ValueError(_)));
}

#[test]
fn quoting() {
    let mut env = default_env();
    assert_eq!(run(&mut env, "'x"), "x");
    assert_eq!(run(&mut env, "(quote (1 2 3))"), "(1 2 3)");
    // The elements stay unevaluated: an unbound symbol inside survives.
    assert_eq!(run(&mut env, "'(nosuch 1)"), "(nosuch 1)");
}

#[test]
fn equality_and_identity() {
    let mut env = default_env();
    assert_eq!(run(&mut env, "(equal? (list 1 2) (list 1 2))"), "#t");
    assert_eq!(run(&mut env, "(same_obj? (list 1 2) (list 1 2))"), "#f");
    assert_eq!(run(&mut env, "(equal? 1 2)"), "#f");
    assert_eq!(run(&mut env, "(same_obj? 1 1)"), "#t");
}

#[test]
fn print_parse_round_trip() {
    let mut env = default_env();
    let printed = run(&mut env, "'(1 -2 0.5 #t (a b) ())");
    assert_eq!(printed, "(1 -2 0.5 #t (a b) ())");
    let again = parse_and_eval(format!("'{}", printed), &mut env)
        .unwrap()
        .to_display_string();
    assert_eq!(again, printed);
}

#[test]
fn arithmetic_builtins() {
    let mut env = default_env();
    assert_eq!(run(&mut env, "(fmod 5 2)"), "1");
    assert_eq!(run(&mut env, "(fmod -7 2.5)"), "-2");
    assert_eq!(run(&mut env, "(mod 7 3)"), "1");
    assert_eq!(run(&mut env, "(abs -5)"), "5");
    assert_eq!(run(&mut env, "(abs 2.5)"), "2.5");
    assert_eq!(run(&mut env, "(expt 2 10)"), "1024");
    assert_eq!(run(&mut env, "(expt 2 -2)"), "0.25");
    assert_eq!(run(&mut env, "(expt 0.5 2)"), "0.25");
    assert_eq!(run(&mut env, "(max 1 2.5 -3)"), "2.5");
    assert_eq!(run(&mut env, "(min 1 2.5 -3)"), "-3");
    assert_eq!(run(&mut env, "(< 1 2)"), "#t");
    assert_eq!(run(&mut env, "(>= 2.5 2.5)"), "#t");
    assert_eq!(run(&mut env, "(= 3 3.0)"), "#t");
    assert_eq!(run(&mut env, "(> 0.3 0.25)"), "#t");
}

#[test]
fn list_builtins() {
    let mut env = default_env();
    assert_eq!(run(&mut env, "(car '(1 2 3))"), "1");
    assert_eq!(run(&mut env, "(cdr '(1 2 3))"), "(2 3)");
    assert_eq!(run(&mut env, "(cons 0 '(1 2))"), "(0 1 2)");
    assert_eq!(run(&mut env, "(append '(1) '(2 3) 4)"), "(1 2 3 4)");
    assert_eq!(run(&mut env, "(length '(1 2 3))"), "3");
    assert_eq!(run(&mut env, "(null? '())"), "#t");
    assert_eq!(run(&mut env, "(null? '(1))"), "#f");
    assert_eq!(run(&mut env, "(null? 5)"), "#f");
    assert_eq!(run(&mut env, "(list? '(1))"), "#t");
    assert_eq!(run(&mut env, "(list? 1)"), "#f");
    assert_eq!(run(&mut env, "(apply + (list 1 2 3))"), "6");
}

#[test]
fn logic_and_predicates() {
    let mut env = default_env();
    assert_eq!(run(&mut env, "(and #t #t)"), "#t");
    assert_eq!(run(&mut env, "(and #t #f)"), "#f");
    assert_eq!(run(&mut env, "(or #f #f)"), "#f");
    assert_eq!(run(&mut env, "(or #f #t)"), "#t");
    assert_eq!(run(&mut env, "(or)"), "#f");
    assert_eq!(run(&mut env, "(and)"), "#t");
    assert_eq!(run(&mut env, "(not #f)"), "#t");
    assert_eq!(run(&mut env, "(number? 1)"), "#t");
    assert_eq!(run(&mut env, "(number? #t)"), "#f");
    assert_eq!(run(&mut env, "(bool? #f)"), "#t");
    assert_eq!(run(&mut env, "(procedure? +)"), "#t");
    assert_eq!(run(&mut env, "(procedure? (lambda (x) x))"), "#t");
    assert_eq!(run(&mut env, "(procedure? 3)"), "#f");
    assert_eq!(run(&mut env, "(begin 1 2 3)"), "3");
}

#[test]
fn error_cases() {
    let mut env = default_env();
    assert!(matches!(run_err(&mut env, "nosuch"), Exceptions::ValueError(_)));
    assert!(matches!(run_err(&mut env, "()"), Exceptions::ValueError(_)));
    assert!(matches!(run_err(&mut env, "(/ 1 0)"), Exceptions::ValueError(_)));
    assert!(matches!(run_err(&mut env, "(mod 1 0)"), Exceptions::ValueError(_)));
    assert!(matches!(
        run_err(&mut env, "(set! nosuch 1)"),
        Exceptions::ValueError(_)
    ));
    assert!(matches!(run_err(&mut env, "(quote)"), Exceptions::ValueError(_)));
    assert!(matches!(run_err(&mut env, "(if #t 1)"), Exceptions::ValueError(_)));
    assert!(matches!(run_err(&mut env, "(if 1 2 3)"), Exceptions::ValueError(_)));
    assert!(matches!(
        run_err(&mut env, "(lambda (x))"),
        Exceptions::SyntaxError(_)
    ));
    assert!(matches!(run_err(&mut env, "(a b"), Exceptions::SyntaxError(_)));
    assert!(matches!(run_err(&mut env, ")"), Exceptions::SyntaxError(_)));
    assert!(matches!(run_err(&mut env, "1 2"), Exceptions::SyntaxError(_)));
    // A quotient with no finite decimal representation is a value fault.
    assert!(matches!(run_err(&mut env, "(/ 1 3)"), Exceptions::ValueError(_)));
    // A fractional exponent is a value fault.
    assert!(matches!(
        run_err(&mut env, "(expt 2 0.5)"),
        Exceptions::ValueError(_)
    ));
}

#[test]
fn set_rebinds() {
    let mut env = default_env();
    run(&mut env, "(define x 1)");
    assert_eq!(run(&mut env, "(set! x 41)"), "41");
    assert_eq!(run(&mut env, "(+ x 1)"), "42");
}

#[test]
fn define_sugar() {
    let mut env = default_env();
    run(&mut env, "(define (add2 a b) (+ a b))");
    assert_eq!(run(&mut env, "(add2 20 22)"), "42");
    // A non-symbol parameter token in the sugar form is a syntax fault.
    assert!(matches!(
        run_err(&mut env, "(define (f 1) 2)"),
        Exceptions::SyntaxError(_)
    ));
}

#[test]
fn atom_classification() {
    let mut env = default_env();
    // Canonical numbers: a whole-valued literal is an integer.
    assert_eq!(run(&mut env, "3.0"), "3");
    assert_eq!(run(&mut env, "0.50"), "0.5");
    assert_eq!(run(&mut env, "-0.5"), "-0.5");
    assert_eq!(run(&mut env, "+5"), "5");
    assert_eq!(run(&mut env, "#t"), "#t");
    assert_eq!(run(&mut env, "\"a b\""), "a b");
    assert_eq!(
        run(&mut env, "9223372036854775807"),
        "9223372036854775807"
    );
}

#[test]
fn constants_bound() {
    let mut env = default_env();
    assert_eq!(run(&mut env, "pi"), "3.141592653589793");
    assert_eq!(run(&mut env, "exp"), "2.718281828459045");
}

#[test]
fn print_forms_collect_output() {
    let mut env = default_env();
    assert_eq!(run(&mut env, "(println! 1 (+ 1 1))"), "1 2");
    let out = env.take_output();
    assert_eq!(out, "1 2\n");
    assert_eq!(env.take_output(), "");
    assert_eq!(run(&mut env, "(print! 1 2)"), "1 2");
    assert_eq!(env.take_output(), "1 2");
}

#[test]
fn runner_folds_units() {
    let program = "(define x 2)\n(define (sq n) (\n  * n n))\n(sq (+ x\n       1))\n".to_string();
    let results = risp::runner::run_from_source_code(program).unwrap();
    assert_eq!(results.last().unwrap().to_display_string(), "9");

    let stops = risp::runner::run_from_source_code("(define y 1)\nexit\ny".to_string()).unwrap();
    assert_eq!(stops.len(), 1);

    let bad = risp::runner::run_from_source_code("(define z (\n".to_string());
    assert!(matches!(bad, Err(Exceptions::SyntaxError(_))));
}

#[test]
fn recursion_depth_is_bounded() {
    let mut env = default_env();
    run(&mut env, "(define (loop n) (loop n))");
    let e = run_err(&mut env, "(loop 1)");
    assert!(matches!(e, Exceptions::ValueError(_)));
    // The environment is still usable afterwards: no frame leaked.
    assert_eq!(run(&mut env, "(+ 1 2)"), "3");
}

#[test]
fn parameters_bind_dynamically() {
    // A free variable in a body resolves against the frames live at call
    // time, innermost first.
    let mut env = default_env();
    run(&mut env, "(define (f) y)");
    run(&mut env, "(define (g y) (f))");
    assert_eq!(run(&mut env, "(g 7)"), "7");
    assert!(matches!(run_err(&mut env, "(f)"), Exceptions::ValueError(_)));
}

#[test]
fn paren_scans() {
    assert!(matches!(first_line_status("(a (b))"), ParensStatus::MATCHING));
    assert!(matches!(first_line_status("(a (b)"), ParensStatus::LeftParensMore));
    assert!(matches!(first_line_status("a))"), ParensStatus::RightParensMore));
    let mut stack = Vec::new();
    assert!(matches!(line_status("(a", &mut stack), ParensStatus::LeftParensMore));
    assert!(matches!(line_status("b)", &mut stack), ParensStatus::MATCHING));

    let (head, rest) = risp::parser::_get_matching_parens_and_remaining("(a (b)) c").unwrap();
    assert_eq!(head, "(a (b))");
    assert_eq!(rest, " c");
    assert!(risp::parser::_get_matching_parens_and_remaining("a").is_none());
}

#[test]
fn parse_rejects_trailing_and_accepts_strings() {
    assert!(parse("(+ 1 2) extra".to_string()).is_err());
    let e = parse("\"hi there\"".to_string()).unwrap();
    assert_eq!(e.to_display_string(), "hi there");
    assert!(parse("\"broken\\".to_string()).is_err());
}
