use toycc::shared::callgraph::{get_monomorphizations, CallGraph};
use toycc::shared::definitions::{CompileError, FuncId};
use toycc::shared::tables::GenericTypetable;
use toycc::shared::typing::{ConcreteType, GenericType, PrimType};

fn int_t() -> ConcreteType {
    ConcreteType::Prim(PrimType::Integer)
}

fn tvar(name: &str) -> GenericType {
    GenericType::TypeVar(name.to_string())
}

#[test]
fn callees_are_instantiated_with_the_callers_arguments() {
    let mut g = CallGraph::new(&vec![(FuncId(0), vec![]), (FuncId(1), vec!["T".to_string()]), (FuncId(2), vec!["U".to_string()])]);
    g.add_callee(&FuncId(1), (FuncId(2), vec![GenericType::Reference(Box::new(tvar("T")))]));
    g.add_callee(&FuncId(1), (FuncId(0), vec![]));
    let callees = g.get_concrete_callees(&FuncId(1), &vec![ConcreteType::Prim(PrimType::Bool)]);
    assert_eq!(
        callees,
        vec![
            (FuncId(2), vec![ConcreteType::Reference(Box::new(ConcreteType::Prim(PrimType::Bool)))]),
            (FuncId(0), vec![]),
        ]
    );
    assert_eq!(g.get_concrete_callees(&FuncId(0), &vec![]), vec![]);
}

#[test]
fn later_entries_replace_earlier_ones() {
    let g = CallGraph::new(&vec![(FuncId(1), vec!["A".to_string()]), (FuncId(1), vec!["B".to_string(), "C".to_string()])]);
    let callees = g.get_concrete_callees(&FuncId(1), &vec![int_t(), int_t()]);
    assert!(callees.is_empty());
}

#[test]
fn monomorphizations_are_the_reachable_instances() {
    // main calls f<int> and g; f<T> calls g and h<&T>; g calls nothing; h<U> calls g.
    let mut g = CallGraph::new(&vec![
        (FuncId(0), vec![]),
        (FuncId(1), vec!["T".to_string()]),
        (FuncId(2), vec![]),
        (FuncId(3), vec!["U".to_string()]),
        (FuncId(4), vec![]),
    ]);
    g.add_callee(&FuncId(0), (FuncId(1), vec![GenericType::Prim(PrimType::Integer)]));
    g.add_callee(&FuncId(0), (FuncId(2), vec![]));
    g.add_callee(&FuncId(1), (FuncId(2), vec![]));
    g.add_callee(&FuncId(1), (FuncId(3), vec![GenericType::Reference(Box::new(tvar("T")))]));
    g.add_callee(&FuncId(3), (FuncId(2), vec![]));
    let table = GenericTypetable::new(Vec::new());
    let monos = get_monomorphizations(&g, &table, &FuncId(0)).unwrap();
    assert_eq!(monos.len(), 4);
    assert!(monos.contains(&(FuncId(0), vec![])));
    assert!(monos.contains(&(FuncId(1), vec![int_t()])));
    assert!(monos.contains(&(FuncId(2), vec![])));
    assert!(monos.contains(&(FuncId(3), vec![ConcreteType::Reference(Box::new(int_t()))])));
    assert!(!monos.iter().any(|(id, _)| *id == FuncId(4)));
}

#[test]
fn ever_deeper_instances_are_refused() {
    // f<T> calls f<&T>: every instance needs a deeper one.
    let mut g = CallGraph::new(&vec![(FuncId(0), vec![]), (FuncId(1), vec!["T".to_string()])]);
    g.add_callee(&FuncId(0), (FuncId(1), vec![GenericType::Prim(PrimType::Integer)]));
    g.add_callee(&FuncId(1), (FuncId(1), vec![GenericType::Reference(Box::new(tvar("T")))]));
    let table = GenericTypetable::new(Vec::new());
    let r = get_monomorphizations(&g, &table, &FuncId(0));
    assert!(matches!(r, Err(CompileError::MonomorphizationCycle)));
}

#[test]
fn recursion_with_the_same_arguments_is_fine() {
    let mut g = CallGraph::new(&vec![(FuncId(0), vec![]), (FuncId(1), vec!["T".to_string()])]);
    g.add_callee(&FuncId(0), (FuncId(1), vec![GenericType::Prim(PrimType::Bool)]));
    g.add_callee(&FuncId(1), (FuncId(1), vec![tvar("T")]));
    let table = GenericTypetable::new(Vec::new());
    let monos = get_monomorphizations(&g, &table, &FuncId(0)).unwrap();
    assert_eq!(monos.len(), 2);
    assert!(monos.contains(&(FuncId(1), vec![ConcreteType::Prim(PrimType::Bool)])));
}

#[test]
fn diverging_mutual_recursion_is_refused() {
    // f<T> calls g<&T>, g<U> calls f<U>: f<int>, g<&int>, f<&int>, g<&&int>, ... never end.
    let mut g = CallGraph::new(&vec![
        (FuncId(0), vec![]),
        (FuncId(1), vec!["T".to_string()]),
        (FuncId(2), vec!["U".to_string()]),
    ]);
    g.add_callee(&FuncId(0), (FuncId(1), vec![GenericType::Prim(PrimType::Integer)]));
    g.add_callee(&FuncId(1), (FuncId(2), vec![GenericType::Reference(Box::new(tvar("T")))]));
    g.add_callee(&FuncId(2), (FuncId(1), vec![tvar("U")]));
    let table = GenericTypetable::new(Vec::new());
    let r = get_monomorphizations(&g, &table, &FuncId(0));
    assert!(matches!(r, Err(CompileError::MonomorphizationCycle)));
}
