use toycc::shared::callgraph::CallGraph;
use toycc::shared::definitions::{CompileError, FuncId, NewtypeId};
use toycc::shared::typing::{ConcreteType, GenericType, PrimType};

fn int_g() -> GenericType {
    GenericType::Prim(PrimType::Integer)
}

fn int_c() -> ConcreteType {
    ConcreteType::Prim(PrimType::Integer)
}

fn tvar(name: &str) -> GenericType {
    GenericType::TypeVar(name.to_string())
}

#[test]
fn monomorphize_fails_exactly_on_an_unbound_variable() {
    let t = GenericType::NewType(NewtypeId("Pair".to_string()), vec![tvar("A"), GenericType::Reference(Box::new(tvar("B")))]);
    let both = vec![("A".to_string(), int_c()), ("B".to_string(), ConcreteType::Prim(PrimType::Bool))];
    let r = t.monomorphize(&both).unwrap();
    assert_eq!(
        r,
        ConcreteType::NewType(
            NewtypeId("Pair".to_string()),
            vec![int_c(), ConcreteType::Reference(Box::new(ConcreteType::Prim(PrimType::Bool)))],
        )
    );
    let only_a = vec![("A".to_string(), int_c())];
    match t.monomorphize(&only_a) {
        Err(CompileError::TypeVarNotFound(v)) => assert_eq!(v, "B"),
        other => panic!("unexpected {:?}", other),
    }
    // a type without variables needs no binding
    assert_eq!(int_g().monomorphize(&vec![]).unwrap(), int_c());
}

#[test]
fn bind_leaves_closed_types_alone() {
    let closed = GenericType::Reference(Box::new(GenericType::NewType(NewtypeId("P".to_string()), vec![int_g()])));
    let b = vec![("T".to_string(), GenericType::Prim(PrimType::Bool))];
    assert_eq!(closed.bind(&b), closed);
    let open = GenericType::NewType(NewtypeId("P".to_string()), vec![tvar("T")]);
    assert_eq!(open.bind(&b), GenericType::NewType(NewtypeId("P".to_string()), vec![GenericType::Prim(PrimType::Bool)]));
}

#[test]
fn a_new_graph_records_no_calls() {
    let g = CallGraph::new(&vec![(FuncId(0), vec![]), (FuncId(1), vec!["T".to_string()])]);
    assert_eq!(g.get_concrete_callees(&FuncId(0), &vec![]), vec![]);
    assert_eq!(g.get_concrete_callees(&FuncId(1), &vec![int_c()]), vec![]);
    assert_eq!(g.get_concrete_callees(&FuncId(1), &vec![ConcreteType::Reference(Box::new(int_c()))]), vec![]);
}
