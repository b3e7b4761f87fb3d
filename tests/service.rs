use duty::error::Error;
use duty::service::{
    compile, compile_with_names, ArgDecl, CompileError, OperationDecl, Pattern, Receiver,
    ServiceDecl,
};

fn arg(name: &str, ty: &str) -> ArgDecl {
    ArgDecl { pattern: Pattern::Ident(name.to_string()), ty: ty.to_string() }
}

fn op(name: &str, receiver: Receiver, args: Vec<ArgDecl>, output: Option<&str>) -> OperationDecl {
    OperationDecl {
        name: name.to_string(),
        receiver,
        args,
        output: output.map(|s| s.to_string()),
        generic: false,
    }
}

fn logic_service() -> ServiceDecl {
    ServiceDecl {
        name: "LogicService".to_string(),
        operations: vec![
            op("and", Receiver::Shared, vec![arg("a", "bool"), arg("b", "bool")], Some("bool")),
            op("or", Receiver::Shared, vec![arg("a", "bool"), arg("b", "bool")], Some("bool")),
            op("magic_const", Receiver::Absent, vec![], Some("bool")),
        ],
    }
}

#[test]
fn request_schema_has_one_variant_per_operation() {
    let a = compile(&logic_service()).unwrap();
    assert_eq!(a.request.name, "LogicServiceRequest");
    let names: Vec<&str> = a.request.variants.iter().map(|v| v.name.as_str()).collect();
    assert_eq!(names, vec!["And", "Or", "MagicConst"]);
    assert_eq!(a.request.variants[0].fields.len(), 2);
    assert_eq!(a.request.variants[0].fields[0].name, "a");
    assert_eq!(a.request.variants[0].fields[1].name, "b");
    assert_eq!(a.request.variants[1].fields[1].ty, "bool");
    assert!(a.request.variants[2].fields.is_empty());
}

#[test]
fn client_stub_mirrors_operations() {
    let a = compile(&logic_service()).unwrap();
    assert_eq!(a.client.name, "LogicServiceClient");
    assert_eq!(a.client.methods.len(), 3);
    for (i, m) in a.client.methods.iter().enumerate() {
        assert_eq!(m.variant, i);
        assert_eq!(m.output, "bool");
    }
    assert_eq!(a.client.methods[1].name, "or");
    assert_eq!(a.client.methods[1].args[0].name, "a");
    assert_eq!(a.client.methods[1].args[0].ty, "bool");
}

#[test]
fn dispatch_table_calls_each_operation() {
    let a = compile(&logic_service()).unwrap();
    assert!(!a.dispatch.exclusive);
    assert_eq!(a.dispatch.arms.len(), 3);
    assert_eq!(a.dispatch.arms[0].method, "and");
    assert_eq!(a.dispatch.arms[0].bindings, vec!["a".to_string(), "b".to_string()]);
    assert!(a.dispatch.arms[0].passes_receiver);
    assert_eq!(a.dispatch.arms[2].method, "magic_const");
    assert!(!a.dispatch.arms[2].passes_receiver);
    assert!(a.dispatch.arms[2].bindings.is_empty());
}

#[test]
fn exclusive_receiver_widens_dispatch() {
    let decl = ServiceDecl {
        name: "Calculator".to_string(),
        operations: vec![
            op("add", Receiver::Shared, vec![arg("a", "A"), arg("b", "A")], Some("<A as Add>::Output")),
            op("mul", Receiver::Exclusive, vec![arg("a", "M"), arg("b", "M")], Some("<M as Mul>::Output")),
            op("magic_number", Receiver::Absent, vec![], Some("A")),
        ],
    };
    let a = compile(&decl).unwrap();
    assert!(a.dispatch.exclusive);
    assert_eq!(a.request.variants[1].name, "Mul");
    assert_eq!(a.request.variants[2].name, "MagicNumber");
    assert_eq!(a.client.methods[0].output, "<A as Add>::Output");
}

#[test]
fn missing_result_type_is_unit() {
    let decl = ServiceDecl {
        name: "Log".to_string(),
        operations: vec![op("write", Receiver::Exclusive, vec![arg("line", "String")], None)],
    };
    let a = compile(&decl).unwrap();
    assert_eq!(a.client.methods[0].output, "()");
    assert_eq!(a.request.variants[0].name, "Write");
}

#[test]
fn empty_service_compiles_to_empty_artifacts() {
    let decl = ServiceDecl { name: "Nothing".to_string(), operations: vec![] };
    let a = compile(&decl).unwrap();
    assert!(a.request.variants.is_empty());
    assert!(a.client.methods.is_empty());
    assert!(a.dispatch.arms.is_empty());
    assert!(!a.dispatch.exclusive);
}

#[test]
fn generic_operation_is_refused() {
    let mut decl = logic_service();
    decl.operations[1].generic = true;
    assert_eq!(compile(&decl).unwrap_err(), CompileError::GenericOperation("or".to_string()));
}

#[test]
fn non_ident_pattern_is_refused() {
    let mut decl = logic_service();
    decl.operations[0].args[1].pattern = Pattern::Other;
    assert_eq!(compile(&decl).unwrap_err(), CompileError::UnsupportedPattern("and".to_string()));
}

#[test]
fn first_bad_operation_is_reported() {
    let mut decl = logic_service();
    decl.operations[2].generic = true;
    decl.operations[1].args[0].pattern = Pattern::Other;
    decl.operations[1].generic = true;
    assert_eq!(compile(&decl).unwrap_err(), CompileError::GenericOperation("or".to_string()));
}

#[test]
fn given_names_are_used_for_variants() {
    let names = vec!["Conj".to_string(), "Disj".to_string(), "Magic".to_string()];
    let a = compile_with_names(&logic_service(), &names).unwrap();
    assert_eq!(a.request.variants[0].name, "Conj");
    assert_eq!(a.request.variants[2].name, "Magic");
    assert_eq!(a.client.methods[0].name, "and");
}

#[test]
fn request_prefix_is_case_number() {
    let a = compile(&logic_service()).unwrap();
    assert_eq!(a.client.request_prefix(0).unwrap(), vec![0, 0, 0, 0]);
    assert_eq!(a.client.request_prefix(2).unwrap(), bincode::serialize(&2u32).unwrap());
}

#[test]
fn route_finds_arm_by_case_number() {
    let a = compile(&logic_service()).unwrap();
    let mut request = a.client.request_prefix(1).unwrap();
    request.extend(bincode::serialize(&(true, false)).unwrap());
    assert_eq!(a.dispatch.route(&request).unwrap(), 1);
    assert_eq!(a.dispatch.route(&[2, 0, 0, 0]).unwrap(), 2);
}

#[test]
fn route_refuses_unknown_or_short_request() {
    let a = compile(&logic_service()).unwrap();
    assert!(matches!(a.dispatch.route(&[3, 0, 0, 0]), Err(Error::MsgDeserFailed(_))));
    assert!(matches!(a.dispatch.route(&[0, 0, 0]), Err(Error::MsgDeserFailed(_))));
    assert!(matches!(a.dispatch.route(&[0, 0, 0, 1]), Err(Error::MsgDeserFailed(_))));
}
