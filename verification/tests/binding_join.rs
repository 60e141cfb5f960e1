use roxi::bindings::Binding;

const S: usize = 0;
const P: usize = 1;
const Q: usize = 2;
const T: usize = 3;

const SUB_CLASS: usize = 10;
const SUB_CLASS2: usize = 11;
const SUB_CLASS3: usize = 12;
const SOME_CLASS: usize = 20;
const SOME_CLASS2: usize = 21;
const SOME_OTHER_CLASS: usize = 30;
const SOME_OTHER_CLASS2: usize = 31;

fn binding_of(columns: &[(usize, &[usize])]) -> Binding {
    let mut b = Binding::new();
    for (var, values) in columns {
        for v in values.iter() {
            b.add(var, *v);
        }
    }
    b
}

fn assert_columns(b: &Binding, columns: &[(usize, &[usize])], others: &[usize]) {
    for (var, values) in columns {
        assert_eq!(Some(&values.to_vec()), b.get(var), "column of {}", var);
    }
    for var in others {
        assert_eq!(None, b.get(var));
    }
}

#[test]
fn binding_test_simple_join() {
    let left = binding_of(&[(S, &[SUB_CLASS]), (P, &[SOME_CLASS])]);
    let right = binding_of(&[(S, &[SUB_CLASS]), (Q, &[SOME_OTHER_CLASS])]);
    let joined = left.join(&right);
    assert_columns(&joined, &[(S, &[SUB_CLASS]), (P, &[SOME_CLASS]), (Q, &[SOME_OTHER_CLASS])], &[T]);
}

#[test]
fn test_single_join_multiple_values() {
    let left = binding_of(&[(S, &[SUB_CLASS, SUB_CLASS2]), (P, &[SOME_CLASS, SOME_CLASS2])]);
    let right = binding_of(&[(S, &[SUB_CLASS, SUB_CLASS2]), (Q, &[SOME_OTHER_CLASS, SOME_OTHER_CLASS2])]);
    let joined = left.join(&right);
    assert_columns(
        &joined,
        &[(S, &[SUB_CLASS, SUB_CLASS2]), (P, &[SOME_CLASS, SOME_CLASS2]), (Q, &[SOME_OTHER_CLASS, SOME_OTHER_CLASS2])],
        &[T],
    );
}

#[test]
fn test_single_join_multiple_values_single_match() {
    let left = binding_of(&[(S, &[SUB_CLASS, SUB_CLASS2]), (P, &[SOME_CLASS, SOME_CLASS2])]);
    let right = binding_of(&[(S, &[SUB_CLASS, SUB_CLASS3]), (Q, &[SOME_OTHER_CLASS, SOME_OTHER_CLASS2])]);
    let joined = left.join(&right);
    assert_columns(&joined, &[(S, &[SUB_CLASS]), (P, &[SOME_CLASS]), (Q, &[SOME_OTHER_CLASS])], &[T]);
}

#[test]
fn test_single_uneven_join() {
    let left = binding_of(&[(S, &[SUB_CLASS, SUB_CLASS2]), (P, &[SOME_CLASS, SOME_CLASS2])]);
    let right = binding_of(&[(S, &[SUB_CLASS]), (Q, &[SOME_OTHER_CLASS])]);
    let joined = left.join(&right);
    assert_columns(&joined, &[(S, &[SUB_CLASS]), (P, &[SOME_CLASS]), (Q, &[SOME_OTHER_CLASS])], &[T]);
}

#[test]
fn test_multiple_join() {
    let left = binding_of(&[(S, &[SUB_CLASS]), (P, &[SOME_CLASS])]);
    let right = binding_of(&[(S, &[SUB_CLASS]), (P, &[SOME_CLASS])]);
    let joined = left.join(&right);
    assert_columns(&joined, &[(S, &[SUB_CLASS]), (P, &[SOME_CLASS])], &[Q, T]);
}

#[test]
fn test_no_match_join() {
    let left = binding_of(&[(S, &[SUB_CLASS]), (P, &[SOME_CLASS])]);
    let right = binding_of(&[(T, &[SUB_CLASS]), (Q, &[SOME_CLASS])]);
    let joined = left.join(&right);
    assert_columns(&joined, &[(S, &[SUB_CLASS]), (P, &[SOME_CLASS]), (T, &[SUB_CLASS]), (Q, &[SOME_CLASS])], &[]);
}

#[test]
fn test_empty_binding_join() {
    let left = Binding::new();
    let right = binding_of(&[(T, &[SUB_CLASS]), (Q, &[SOME_CLASS])]);
    let joined = left.join(&right);
    assert_columns(&joined, &[(T, &[SUB_CLASS]), (Q, &[SOME_CLASS])], &[S, P]);
}
