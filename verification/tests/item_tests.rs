use verification_tool::item::{power_of_two, Item};
use verification_tool::types::{Method, MethodType, Semantics, Status, Transaction, Event};

#[test]
fn fresh_item_of_key() {
    let it = Item::newFromKey(5);
    assert_eq!(it.key, 5);
    assert_eq!(it.value, i64::MIN);
    assert_eq!((it.numerator, it.denominator), (0, 1));
    assert_eq!((it.numerator_f, it.denominator_f), (0, 0));
    assert_eq!((it.numerator_r, it.denominator_r), (0, 1));
    assert_eq!(it.status, Status::PRESENT);
    assert!(it.promote_items.is_empty() && it.demote_methods.is_empty());
}

#[test]
fn fresh_item_of_value() {
    let it = Item::newFromVal(5, 9);
    assert_eq!((it.key, it.value), (5, 9));
    assert_eq!((it.numerator_f, it.denominator_f), (0, 1));
}

#[test]
fn whole_units_add_and_take() {
    let mut it = Item::newFromKey(1);
    it.add_int(3);
    assert_eq!((it.numerator, it.denominator), (3, 1));
    it.sub_int(3);
    assert_eq!((it.numerator, it.denominator), (0, 1));
    assert!(!it.sum_is_positive() && !it.sum_is_negative());
    it.sub_int(1);
    assert!(it.sum_is_negative());
}

#[test]
fn fraction_keeps_larger_denominator() {
    let mut it = Item::newFromKey(1);
    it.add_int(1);
    it.add_frac(1, 4);
    assert_eq!((it.numerator, it.denominator), (5, 4));
    it.add_frac(1, 2);
    assert_eq!((it.numerator, it.denominator), (7, 4));
    it.sub_frac(3, 4);
    assert_eq!((it.numerator, it.denominator), (4, 4));
}

#[test]
fn fraction_multiplies_coprime_denominators() {
    let mut it = Item::newFromKey(1);
    it.add_frac(1, 2);
    it.add_frac(1, 3);
    assert_eq!((it.numerator, it.denominator), (5, 6));
    it.sub_frac(1, 5);
    assert_eq!((it.numerator, it.denominator), (19, 30));
}

#[test]
fn demotions_halve_each_step() {
    let mut it = Item::newFromKey(1);
    it.add_int(1);
    it.demote();
    assert_eq!((it.numerator, it.denominator, it.exponent), (1, 2, 1));
    it.demote();
    assert_eq!((it.numerator, it.denominator, it.exponent), (1, 4, 2));
}

#[test]
fn promotion_undoes_demotion() {
    let mut it = Item::newFromKey(1);
    it.add_int(1);
    it.demote();
    it.promote();
    assert_eq!(it.exponent, 0);
    assert_eq!(it.numerator * 1, 1 * it.denominator);
    let mut other = Item::newFromKey(2);
    other.add_frac(1, 3);
    other.demote();
    other.promote();
    assert_eq!(other.exponent, 0);
    assert_eq!(other.numerator * 3, 1 * other.denominator);
}

#[test]
fn read_demotions_count_in_read_exponent() {
    let mut it = Item::newFromKey(1);
    it.demote_r();
    it.demote_r();
    assert_eq!(it.exponent_r, 2);
    assert_eq!((it.numerator_f, it.denominator_f), (0, 0));
    assert!(it.demote_r_goes_through());
    it.exponent_r = 62;
    assert!(!it.demote_r_goes_through());
}

#[test]
fn failed_demotion_of_value_item() {
    let mut it = Item::newFromVal(1, 1);
    it.demote_f();
    assert_eq!((it.numerator_f, it.denominator_f, it.exponent_f), (-1, 2, 1));
}

#[test]
fn duplicate_is_equal_copy() {
    let mut it = Item::newFromKey(3);
    it.promote_items.push(4);
    let c = it.duplicate();
    assert_eq!(c.promote_items, vec![4]);
    assert_eq!(c.key, 3);
}

#[test]
fn add_int_overflow_is_detected() {
    let mut it = Item::newFromKey(1);
    it.add_int(i64::MAX);
    assert!(!it.add_int_goes_through(1));
    assert!(it.add_int_goes_through(-1));
}

#[test]
fn powers_of_two() {
    assert_eq!(power_of_two(0), 1);
    assert_eq!(power_of_two(10), 1024);
    assert_eq!(power_of_two(62), 1i64 << 62);
    assert_eq!(power_of_two(-3), 1);
}

#[test]
fn method_constructor_sets_fields() {
    let m = Method::Method(1, 2, 3, 4, Semantics::FIFO, MethodType::CONSUMER, 5, 6, false);
    assert_eq!((m.id, m.process, m.item_key, m.item_val), (1, 2, 3, 4));
    assert_eq!(m.semantics, Semantics::FIFO);
    assert_eq!(m.MethodType, MethodType::CONSUMER);
    assert_eq!((m.invocation, m.response, m.quiescent_period), (5, 6, -1));
    assert!(!m.status);
}

#[test]
fn transaction_from_event() {
    let e = Event { from: "a".to_string(), to: "b".to_string(), value: -7 };
    let t = Transaction::from_event(e, 4, 9);
    assert_eq!(t, Transaction { amount: -7, send_addr: 4, receive_addr: 9 });
}

#[test]
fn taking_a_fraction_undoes_adding_it() {
    // 1/2 + 1/3 = 5/6 over the product; 5/6 - 1/3 = 3/6, which is 1/2.
    let mut it = Item::newFromKey(1);
    it.add_frac(1, 2);
    it.add_frac(1, 3);
    assert_eq!((it.numerator, it.denominator), (5, 6));
    it.sub_frac(1, 3);
    assert_eq!((it.numerator, it.denominator), (3, 6));
    assert_eq!(it.numerator * 2, 1 * it.denominator);
}
