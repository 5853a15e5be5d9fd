use rixty::domain;
use rixty::domain_rc;
use rixty::index::Level;
use rixty::syntax::{to_nat, Builder, TermRef};

const FUEL: usize = 50_000_000;

fn church(b: &Builder, n: usize) -> TermRef {
    let mut body = b.v(0);
    for _ in 0..n {
        body = b.application(b.v(1), body);
    }
    b.l(b.l(body))
}

fn church_mul(b: &Builder) -> TermRef {
    b.l(b.l(b.l(b.l(b.apps(
        b.v(3),
        &vec![b.application(b.v(2), b.v(1)), b.v(0)],
    )))))
}

fn normalize_rc(t: &TermRef) -> TermRef {
    domain_rc::normalize_rc(t, FUEL).expect("normalization ran out of fuel")
}

fn normalize_arena(t: &TermRef) -> TermRef {
    domain::normalize(t, FUEL).expect("normalization ran out of fuel")
}

#[test]
fn normal_form_idempotent() {
    let b = Builder::new();
    let m = church_mul(&b);
    let two = church(&b, 2);
    let five = church(&b, 5);
    let corpus: Vec<TermRef> = vec![
        church(&b, 0),
        two.clone(),
        five.clone(),
        b.apps(m.clone(), &vec![two.clone(), five.clone()]),
        b.l(b.v(0)),
        b.l(b.l(b.application(b.v(0), b.v(1)))),
    ];
    for t in &corpus {
        let nf = normalize_rc(t);
        let nf2 = normalize_rc(&nf);
        assert!(nf.equals(&nf2));
    }
}

#[test]
fn beta_equivalence_collapses() {
    let b = Builder::new();
    let m = church_mul(&b);
    let two = church(&b, 2);
    let five = church(&b, 5);
    let product = b.apps(m, &vec![two.clone(), five]);
    let ten = church(&b, 10);
    let nf_product = normalize_rc(&product);
    let nf_ten = normalize_rc(&ten);
    assert!(nf_product.equals(&nf_ten));
    assert_eq!(to_nat(&nf_product), Some(10));
    // A term already in normal form normalizes to itself.
    let nf_two = normalize_rc(&two);
    assert!(nf_two.equals(&two));
}

#[test]
fn associativity_fixtures() {
    let b = Builder::new();
    let m = church_mul(&b);
    let two = church(&b, 2);
    let ten = church(&b, 10);
    let left = b.apps(
        m.clone(),
        &vec![two.clone(), b.apps(m.clone(), &vec![two.clone(), ten.clone()])],
    );
    let right = b.apps(
        m.clone(),
        &vec![b.apps(m.clone(), &vec![two.clone(), two.clone()]), ten.clone()],
    );
    let nf_left = normalize_rc(&left);
    let nf_right = normalize_rc(&right);
    assert!(nf_left.equals(&nf_right));
    assert_eq!(to_nat(&nf_left), Some(40));
}

#[test]
fn squaring_chain_scales() {
    // Repeated squaring: each round multiplies the previous normal
    // form by itself and decodes the result. The decoded value must
    // match the arithmetic square every time. (Quoting a numeral of
    // size n recurses n deep, so the chain stops at the largest
    // encoding the test thread's stack can hold.)
    let b = Builder::new();
    let m = church_mul(&b);
    let mut n: usize = 2;
    let mut encoding = church(&b, 2);
    while n < 256 {
        let squared = b.apps(m.clone(), &vec![encoding.clone(), encoding.clone()]);
        encoding = normalize_rc(&squared);
        n = n * n;
        assert_eq!(to_nat(&encoding), Some(n));
    }
    assert_eq!(n, 256);
}

#[test]
fn spine_application_order() {
    // A free variable applied to three distinct arguments: the normal
    // form is three left-associated applications in original order.
    let b = Builder::new();
    let term = b.apps(b.v(3), &vec![b.v(2), b.v(1), b.v(0)]);
    let mut environment = domain_rc::Environment::new();
    for level in 0..4 {
        environment.extend(domain_rc::Value::variable(Level(level)));
    }
    let value = term
        .evaluate_rc(&mut environment, FUEL)
        .expect("evaluation failed");
    let quoted = value
        .quote(Level(4), FUEL, &b)
        .expect("quoting failed");
    let expected = b.apps(b.v(3), &vec![b.v(2), b.v(1), b.v(0)]);
    assert!(quoted.equals(&expected));
}

#[test]
fn environment_isolation() {
    let b = Builder::new();
    let f = b.v(0);
    // Evaluating g forces beta steps, so the environment is extended
    // transiently while the argument is evaluated.
    let g = b.application(b.l(b.l(b.application(b.v(1), b.v(0)))), b.v(0));
    let mut environment = domain_rc::Environment::new();
    environment.extend(domain_rc::Value::variable(Level(0)));

    let before = f
        .evaluate_rc(&mut environment, FUEL)
        .expect("evaluation failed")
        .quote(Level(1), FUEL, &b)
        .expect("quoting failed");

    let t = b.application(f.clone(), g);
    t.evaluate_rc(&mut environment, FUEL)
        .expect("evaluation failed");
    assert_eq!(environment.len(), 1);

    let after = f
        .evaluate_rc(&mut environment, FUEL)
        .expect("evaluation failed")
        .quote(Level(1), FUEL, &b)
        .expect("quoting failed");
    assert!(before.equals(&after));
}

#[test]
fn variant_agreement_corpus() {
    let b = Builder::new();
    let m = church_mul(&b);
    let two = church(&b, 2);
    let five = church(&b, 5);
    let ten = church(&b, 10);
    let corpus: Vec<TermRef> = vec![
        church(&b, 0),
        two.clone(),
        five.clone(),
        b.apps(m.clone(), &vec![two.clone(), five.clone()]),
        b.apps(m.clone(), &vec![two.clone(), b.apps(m.clone(), &vec![two.clone(), ten.clone()])]),
        b.l(b.v(0)),
        b.l(b.l(b.application(b.v(0), b.v(1)))),
        b.application(b.l(b.v(0)), b.l(b.l(b.v(1)))),
    ];
    for t in &corpus {
        let nf_rc = normalize_rc(t);
        let nf_arena = normalize_arena(t);
        assert!(nf_rc.equals(&nf_arena));
    }
}

#[test]
fn arena_variant_multiplies() {
    let b = Builder::new();
    let m = church_mul(&b);
    let three = church(&b, 3);
    let four = church(&b, 4);
    let product = b.apps(m, &vec![three, four]);
    let nf = normalize_arena(&product);
    assert_eq!(to_nat(&nf), Some(12));
}

#[test]
fn fuel_exhaustion_returns_none() {
    // The self-application loop never reaches a normal form; the fuel
    // bound reports that instead of diverging.
    let b = Builder::new();
    let omega_half = b.l(b.application(b.v(0), b.v(0)));
    let omega = b.application(omega_half.clone(), omega_half);
    assert!(domain_rc::normalize_rc(&omega, 300).is_none());
    assert!(domain::normalize(&omega, 300).is_none());
}

#[test]
fn unbound_variable_returns_none() {
    let b = Builder::new();
    let free = b.v(0);
    assert!(domain_rc::normalize_rc(&free, 1_000).is_none());
    assert!(domain::normalize(&free, 1_000).is_none());
    let deep = b.l(b.v(5));
    assert!(domain_rc::normalize_rc(&deep, 1_000).is_none());
}

#[test]
fn quote_level_underflow_returns_none() {
    // A stuck variable introduced at level 5 cannot be quoted at
    // level 0: its binder is not in scope there.
    let b = Builder::new();
    let value = domain_rc::Value::variable(Level(5));
    assert!(value.quote(Level(0), 1_000, &b).is_none());
    assert!(value.quote(Level(6), 1_000, &b).is_some());
}

#[test]
fn zero_fuel_returns_none() {
    let b = Builder::new();
    let id = b.l(b.v(0));
    assert!(domain_rc::normalize_rc(&id, 0).is_none());
}
