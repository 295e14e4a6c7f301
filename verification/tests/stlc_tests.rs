use stlc::ast::{Binding, TType, Term, TermBuilder};
use stlc::context::{Context, TypeError};
use stlc::parser::{parse, ParseFailure};

fn bool_to_bool() -> TType {
    TType::TFun(Box::new(TType::TBool), Box::new(TType::TBool))
}

#[test]
fn test1() {
    let mut context = Context::new();
    let term = parse("fun x -> fun y -> true", &mut context);
    assert_eq!(
        term,
        Ok(Term::TAbstraction(
            "x".to_string(),
            Box::new(Term::TAbstraction(
                "y".to_string(),
                Box::new(Term::TTrue)
            ))
        ))
    );
}

#[test]
fn test2() {
    let mut context = Context::new();
    let term = parse("fun x -> fun y -> x", &mut context);
    assert_eq!(term, Err(ParseFailure::UnboundName(18)));
}

#[test]
fn test3() {
    let mut context = Context::new();
    let term = parse("if false then true else false", &mut context);
    assert_eq!(
        term,
        Ok(Term::TConditional(
            Box::new(Term::TFalse),
            Box::new(Term::TTrue),
            Box::new(Term::TFalse)
        ))
    );
}

#[test]
fn check_bool_literals_in_any_context() {
    let empty = Context::new();
    assert_eq!(empty.check_type(&Term::TTrue), Ok(TType::TBool));
    assert_eq!(empty.check_type(&Term::TFalse), Ok(TType::TBool));

    let mut populated = Context::new();
    populated.add_binding("x", Binding::VariableBinding(TType::TBool));
    populated.add_binding("f", Binding::VariableBinding(bool_to_bool()));
    assert_eq!(populated.check_type(&Term::TTrue), Ok(TType::TBool));
    assert_eq!(populated.check_type(&Term::TFalse), Ok(TType::TBool));
}

#[test]
fn check_variable_cases() {
    let mut context = Context::new();
    let typed = context.add_binding("x", Binding::VariableBinding(bool_to_bool()));
    let untyped = context.add_binding("y", Binding::NameBinding);
    assert_eq!(
        context.check_type(&Term::TVariable(typed)),
        Ok(bool_to_bool())
    );
    assert_eq!(
        context.check_type(&Term::TVariable(untyped)),
        Err(TypeError::UnboundOrUntyped)
    );
    assert_eq!(
        context.check_type(&Term::TVariable(17)),
        Err(TypeError::UnboundOrUntyped)
    );
}

#[test]
fn check_conditional_cases() {
    let mut context = Context::new();
    let f = context.add_binding("f", Binding::VariableBinding(bool_to_bool()));
    let fun_var = Term::TVariable(f);

    let good = Term::TConditional(
        Box::new(Term::TTrue),
        Box::new(fun_var.clone()),
        Box::new(fun_var.clone()),
    );
    assert_eq!(context.check_type(&good), Ok(bool_to_bool()));

    let mismatch = Term::TConditional(
        Box::new(Term::TTrue),
        Box::new(Term::TFalse),
        Box::new(fun_var.clone()),
    );
    assert_eq!(
        context.check_type(&mismatch),
        Err(TypeError::BranchTypeMismatch)
    );

    let bad_cond = Term::TConditional(
        Box::new(fun_var.clone()),
        Box::new(Term::TTrue),
        Box::new(Term::TFalse),
    );
    assert_eq!(
        context.check_type(&bad_cond),
        Err(TypeError::NonBooleanCondition)
    );

    // A non-boolean condition is reported even when the branches would also
    // mismatch.
    let both_bad = Term::TConditional(
        Box::new(fun_var.clone()),
        Box::new(Term::TTrue),
        Box::new(fun_var.clone()),
    );
    assert_eq!(
        context.check_type(&both_bad),
        Err(TypeError::NonBooleanCondition)
    );

    // A failing condition check is propagated before anything else.
    let bad_inner = Term::TConditional(
        Box::new(Term::TVariable(99)),
        Box::new(Term::TTrue),
        Box::new(fun_var),
    );
    assert_eq!(
        context.check_type(&bad_inner),
        Err(TypeError::UnboundOrUntyped)
    );
}

#[test]
fn check_application_cases() {
    let mut context = Context::new();
    let f = context.add_binding("f", Binding::VariableBinding(bool_to_bool()));
    let fun_var = Term::TVariable(f);

    let good = Term::TApplication(Box::new(fun_var.clone()), Box::new(Term::TTrue));
    assert_eq!(context.check_type(&good), Ok(TType::TBool));

    let not_a_function = Term::TApplication(Box::new(Term::TTrue), Box::new(Term::TFalse));
    assert_eq!(
        context.check_type(&not_a_function),
        Err(TypeError::NotAFunctionApplied)
    );

    let wrong_argument = Term::TApplication(Box::new(fun_var.clone()), Box::new(fun_var));
    assert_eq!(
        context.check_type(&wrong_argument),
        Err(TypeError::ArgumentTypeMismatch)
    );
}

#[test]
fn check_abstraction_cases() {
    let mut context = Context::new();
    let mut builder = TermBuilder::new();
    builder.var_typed(&mut context, TType::TBool, "x");
    let abs = builder.abstraction("x", builder.term_false());
    assert_eq!(context.check_type(&abs), Ok(bool_to_bool()));

    builder.var(&mut context, "y");
    let unannotated = builder.abstraction("y", builder.term_true());
    assert_eq!(
        context.check_type(&unannotated),
        Err(TypeError::UnannotatedAbstractionParameter)
    );

    let unbound = builder.abstraction("z", builder.term_true());
    assert_eq!(
        context.check_type(&unbound),
        Err(TypeError::UnboundOrUntyped)
    );
}

#[test]
fn parse_boolean_literals() {
    let mut context = Context::new();
    let t = parse("true", &mut context);
    assert_eq!(t, Ok(Term::TTrue));
    assert_eq!(context.check_type(&t.unwrap()), Ok(TType::TBool));

    let f = parse("false", &mut context);
    assert_eq!(f, Ok(Term::TFalse));
    assert_eq!(context.check_type(&f.unwrap()), Ok(TType::TBool));
}

#[test]
fn parse_conditional_checks_bool() {
    let mut context = Context::new();
    let term = parse("if false then true else false", &mut context).unwrap();
    assert_eq!(context.check_type(&term), Ok(TType::TBool));
}

#[test]
fn parse_abstraction_with_declared_parameter() {
    let mut context = Context::new();
    context.add_binding("x", Binding::VariableBinding(TType::TBool));
    let term = parse("fun x -> false", &mut context);
    assert_eq!(
        term,
        Ok(Term::TAbstraction("x".to_string(), Box::new(Term::TFalse)))
    );
    assert_eq!(context.check_type(&term.unwrap()), Ok(bool_to_bool()));
}

#[test]
fn parse_declaration_registers_binding() {
    let mut context = Context::new();
    let term = parse("x : Bool", &mut context);
    assert_eq!(term, Ok(Term::TVariable(0)));
    assert_eq!(context.len(), 1);
    assert_eq!(context.get_name_from_idx(0), "x".to_string());
    assert_eq!(context.get_type_from_idx(0), Some(TType::TBool));
    assert_eq!(context.check_type(&term.unwrap()), Ok(TType::TBool));
}

#[test]
fn parse_bare_reference_resolves_earliest() {
    let mut context = Context::new();
    context.add_binding("x", Binding::VariableBinding(TType::TBool));
    context.add_binding("x", Binding::VariableBinding(bool_to_bool()));
    let term = parse("x", &mut context);
    assert_eq!(term, Ok(Term::TVariable(0)));
}

#[test]
fn parse_application_of_declared_function() {
    let mut context = Context::new();
    context.add_binding("f", Binding::VariableBinding(bool_to_bool()));
    let term = parse("f (x : Bool)", &mut context);
    assert_eq!(
        term,
        Ok(Term::TApplication(
            Box::new(Term::TVariable(0)),
            Box::new(Term::TVariable(1))
        ))
    );
    assert_eq!(context.check_type(&term.unwrap()), Ok(TType::TBool));
}

#[test]
fn parse_application_of_non_function() {
    let mut context = Context::new();
    let term = parse("(x : Bool) (y : Bool)", &mut context).unwrap();
    assert_eq!(
        term,
        Term::TApplication(
            Box::new(Term::TVariable(0)),
            Box::new(Term::TVariable(1))
        )
    );
    assert_eq!(
        context.check_type(&term),
        Err(TypeError::NotAFunctionApplied)
    );
}

#[test]
fn parse_failures() {
    let mut context = Context::new();
    assert_eq!(
        parse("", &mut context),
        Err(ParseFailure::UnexpectedEnd(0))
    );
    assert_eq!(
        parse(")", &mut context),
        Err(ParseFailure::UnexpectedInput(0))
    );
    assert_eq!(
        parse("if true", &mut context),
        Err(ParseFailure::UnexpectedEnd(7))
    );
    assert_eq!(
        parse("x : Nat", &mut context),
        Err(ParseFailure::UnsupportedTypeName(4))
    );
    assert_eq!(
        parse("true false false", &mut context),
        Err(ParseFailure::UnexpectedInput(11))
    );
}

#[test]
fn parse_canonical_application_render() {
    let mut context = Context::new();
    context.add_binding("f", Binding::VariableBinding(bool_to_bool()));
    context.add_binding("x", Binding::VariableBinding(TType::TBool));
    let term = parse("(f) (x)", &mut context).unwrap();
    assert_eq!(
        term,
        Term::TApplication(
            Box::new(Term::TVariable(0)),
            Box::new(Term::TVariable(1))
        )
    );
    assert_eq!(context.check_type(&term), Ok(TType::TBool));
    assert_eq!(context.len(), 2);
}

#[test]
fn parse_canonical_abstraction_render() {
    let mut context = Context::new();
    context.add_binding("x", Binding::VariableBinding(TType::TBool));
    let term = parse("fun x -> if x then false else true", &mut context).unwrap();
    assert_eq!(
        term,
        Term::TAbstraction(
            "x".to_string(),
            Box::new(Term::TConditional(
                Box::new(Term::TVariable(0)),
                Box::new(Term::TFalse),
                Box::new(Term::TTrue)
            ))
        )
    );
    assert_eq!(context.check_type(&term), Ok(bool_to_bool()));
}

#[test]
fn builder_constructors() {
    let mut context = Context::new();
    let mut builder = TermBuilder::new();
    assert_eq!(builder.term_true(), Term::TTrue);
    assert_eq!(builder.term_false(), Term::TFalse);

    let x = builder.var_typed(&mut context, TType::TBool, "x");
    assert_eq!(x, Term::TVariable(0));
    let y = builder.var(&mut context, "y");
    assert_eq!(y, Term::TVariable(1));
    assert_eq!(context.get_binding_from_idx(0), Binding::VariableBinding(TType::TBool));
    assert_eq!(context.get_binding_from_idx(1), Binding::NameBinding);

    let app = builder.application(x.clone(), Term::TTrue);
    assert_eq!(
        app,
        Term::TApplication(Box::new(Term::TVariable(0)), Box::new(Term::TTrue))
    );
    let cond = builder.conditional(x.clone(), Term::TTrue, Term::TFalse);
    assert_eq!(
        cond,
        Term::TConditional(
            Box::new(Term::TVariable(0)),
            Box::new(Term::TTrue),
            Box::new(Term::TFalse)
        )
    );
    let abs = builder.abstraction("x", cond);
    assert_eq!(context.check_type(&abs), Ok(bool_to_bool()));

    let wrapped = builder.lambda("x", || Term::TFalse);
    assert_eq!(
        wrapped,
        Term::TAbstraction("x".to_string(), Box::new(Term::TFalse))
    );
}

#[test]
fn context_lookup_is_earliest_match() {
    let mut context = Context::new();
    assert_eq!(context.get_idx_from_name("a"), None);
    context.add_binding("a", Binding::NameBinding);
    context.add_binding("b", Binding::VariableBinding(TType::TBool));
    context.add_binding("a", Binding::VariableBinding(TType::TBool));
    assert_eq!(context.get_idx_from_name("a"), Some(0));
    assert_eq!(context.get_idx_from_name("b"), Some(1));
    assert_eq!(context.get_idx_from_name("c"), None);
    assert_eq!(context.len(), 3);
    assert_eq!(context.get_name_from_idx(2), "a".to_string());
    assert_eq!(context.get_type_from_idx(0), None);
}

#[test]
fn builder_and_parser_agree_on_conditional() {
    let mut built_context = Context::new();
    let mut builder = TermBuilder::new();
    let x = builder.var_typed(&mut built_context, TType::TBool, "x");
    let built = builder.conditional(x, builder.term_true(), builder.term_false());

    let mut parsed_context = Context::new();
    parsed_context.add_binding("x", Binding::VariableBinding(TType::TBool));
    let parsed = parse("if x then true else false", &mut parsed_context).unwrap();

    assert_eq!(built, parsed);
    assert_eq!(
        built_context.check_type(&built),
        parsed_context.check_type(&parsed)
    );
    assert_eq!(built_context.check_type(&built), Ok(TType::TBool));
}

#[test]
fn builder_and_parser_agree_on_abstraction() {
    let mut built_context = Context::new();
    let mut builder = TermBuilder::new();
    builder.var_typed(&mut built_context, TType::TBool, "x");
    let built = builder.abstraction("x", builder.term_false());

    let mut parsed_context = Context::new();
    parsed_context.add_binding("x", Binding::VariableBinding(TType::TBool));
    let parsed = parse("fun x -> false", &mut parsed_context).unwrap();

    assert_eq!(built, parsed);
    assert_eq!(
        built_context.check_type(&built),
        parsed_context.check_type(&parsed)
    );
    assert_eq!(built_context.check_type(&built), Ok(bool_to_bool()));
}
