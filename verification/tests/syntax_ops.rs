use rixty::domain_rc;
use rixty::index::{Index, Level};
use rixty::syntax::{to_nat, Builder, TermRef};

#[test]
fn index_and_level_arithmetic() {
    assert_eq!(Index(3).to_int(), 3);
    assert_eq!(Level(7).to_int(), 7);
    assert_eq!(Level(2).to_index(Level(5)).to_int(), 2);
    assert_eq!(Level(0).to_index(Level(1)).to_int(), 0);
    assert_eq!(Level(4).next().to_int(), 5);
}

#[test]
fn builder_constructs_expected_shapes() {
    let b = Builder::new();
    let v = b.variable(Index(2));
    assert!(v.equals(&b.v(2)));
    let lam = b.lambda(b.v(0));
    assert!(lam.equals(&b.l(b.v(0))));
    let app = b.application(b.v(1), b.v(0));
    let chained = b.apps(b.v(1), &vec![b.v(0)]);
    assert!(app.equals(&chained));
    // An empty argument list leaves the function untouched.
    let alone = b.apps(b.v(1), &vec![]);
    assert!(alone.equals(&b.v(1)));
}

#[test]
fn term_equality_distinguishes_shapes() {
    let b = Builder::new();
    assert!(!b.v(0).equals(&b.v(1)));
    assert!(!b.l(b.v(0)).equals(&b.v(0)));
    assert!(!b.application(b.v(0), b.v(1)).equals(&b.application(b.v(1), b.v(0))));
    assert!(b.l(b.application(b.v(0), b.v(1))).equals(&b.l(b.application(b.v(0), b.v(1)))));
}

#[test]
fn to_nat_decodes_church_numerals() {
    let b = Builder::new();
    let mut body = b.v(0);
    assert_eq!(to_nat(&b.l(b.l(body.clone()))), Some(0));
    for expected in 1..5usize {
        body = b.application(b.v(1), body);
        assert_eq!(to_nat(&b.l(b.l(body.clone()))), Some(expected));
    }
}

#[test]
fn to_nat_rejects_non_numerals() {
    let b = Builder::new();
    assert_eq!(to_nat(&b.v(0)), None);
    assert_eq!(to_nat(&b.l(b.v(0))), None);
    assert_eq!(to_nat(&b.l(b.l(b.v(1)))), None);
    assert_eq!(to_nat(&b.l(b.l(b.application(b.v(0), b.v(0))))), None);
    assert_eq!(to_nat(&b.l(b.l(b.l(b.v(0))))), None);
}

#[test]
fn spine_orders_arguments() {
    let mut spine = domain_rc::Spine::new();
    assert!(spine.is_empty());
    let first = domain_rc::Value::variable(Level(1));
    let second = domain_rc::Value::variable(Level(2));
    // Arguments are discovered outermost-last, so the one pushed last
    // comes out first.
    spine.push_front(second);
    spine.push_front(first);
    assert!(!spine.is_empty());
    let a = spine.pop_front().expect("spine should hold two values");
    match &*a {
        domain_rc::Value::Neutral { head, spine: args } => {
            let domain_rc::Head::Variable(level) = head;
            assert_eq!(level.to_int(), 1);
            assert!(args.is_empty());
        }
        _ => panic!("expected a neutral value"),
    }
    let _ = spine.pop_front().expect("spine should hold one value");
    assert!(spine.pop_front().is_none());
    assert!(spine.is_empty());
}

#[test]
fn apply_extends_a_neutral_spine() {
    let b = Builder::new();
    let function = domain_rc::Value::variable(Level(0));
    let argument = domain_rc::Value::variable(Level(1));
    let applied = domain_rc::apply(&function, argument, 1_000).expect("apply failed");
    let quoted = applied.quote(Level(2), 1_000, &b).expect("quoting failed");
    let expected = b.application(b.v(1), b.v(0));
    assert!(quoted.equals(&expected));
}

#[test]
fn apply_beta_reduces_a_closure() {
    let b = Builder::new();
    // Evaluate the identity function to a closure value, then apply it
    // to a fresh stuck variable: the argument must come back unchanged.
    let id: TermRef = b.l(b.v(0));
    let mut environment = domain_rc::Environment::new();
    let closure = id.evaluate_rc(&mut environment, 1_000).expect("evaluation failed");
    let argument = domain_rc::Value::variable(Level(0));
    let result = domain_rc::apply(&closure, argument, 1_000).expect("apply failed");
    let quoted = result.quote(Level(1), 1_000, &b).expect("quoting failed");
    assert!(quoted.equals(&b.v(0)));
}
