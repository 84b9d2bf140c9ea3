use vstd::prelude::*;
use vstd::arithmetic::power2::{
    pow2, lemma_pow2_unfold, lemma_pow2_strictly_increases, lemma2_to64, lemma2_to64_rest,
    lemma_pow2_pos,
};
use vstd::arithmetic::div_mod::{lemma_div_multiples_vanish, lemma_fundamental_div_mod};
use crate::types::{Status, Method};

verus! {

/// The abstract value of an [`Item`]: the same fields, with the two stacks as sequences.
///
/// An item carries a weight kept as an exact fraction `numerator / denominator`
/// (the weight of the item's producers minus that of its consumers and
/// demotions), and two more fractions, suffixed `_f` and `_r`, for failed
/// methods and for reads.
pub struct ItemModel {
    pub key: i64,
    pub value: i64,
    pub numerator: i64,
    pub denominator: i64,
    pub exponent: i64,
    pub status: Status,
    pub promote_items: Seq<i64>,
    pub demote_methods: Seq<Method>,
    pub producer: i64,
    pub numerator_f: i64,
    pub denominator_f: i64,
    pub exponent_f: i64,
    pub numerator_r: i64,
    pub denominator_r: i64,
    pub exponent_r: i64,
}

/// An item of the checked data structure, as the checker tracks it.
pub struct Item {
    pub key: i64,
    pub value: i64,
    pub numerator: i64,
    pub denominator: i64,
    pub exponent: i64,
    pub status: Status,
    pub promote_items: Vec<i64>,
    pub demote_methods: Vec<Method>,
    pub producer: i64,
    pub numerator_f: i64,
    pub denominator_f: i64,
    pub exponent_f: i64,
    pub numerator_r: i64,
    pub denominator_r: i64,
    pub exponent_r: i64,
}

impl View for Item {
    type V = ItemModel;

    open spec fn view(&self) -> ItemModel {
        ItemModel {
            key: self.key,
            value: self.value,
            numerator: self.numerator,
            denominator: self.denominator,
            exponent: self.exponent,
            status: self.status,
            promote_items: self.promote_items@,
            demote_methods: self.demote_methods@,
            producer: self.producer,
            numerator_f: self.numerator_f,
            denominator_f: self.denominator_f,
            exponent_f: self.exponent_f,
            numerator_r: self.numerator_r,
            denominator_r: self.denominator_r,
            exponent_r: self.exponent_r,
        }
    }
}

/// A fresh item of the given key, value and failed-fraction denominator.
pub open spec fn fresh_item(key: i64, value: i64, denominator_f: i64) -> ItemModel {
    ItemModel {
        key,
        value,
        numerator: 0,
        denominator: 1,
        exponent: 0,
        status: Status::PRESENT,
        promote_items: Seq::empty(),
        demote_methods: Seq::empty(),
        producer: 0,
        numerator_f: 0,
        denominator_f,
        exponent_f: 0,
        numerator_r: 0,
        denominator_r: 1,
        exponent_r: 0,
    }
}

/// The item that stands for key `key` before any method touched it.
pub open spec fn item_of_key(key: i64) -> ItemModel {
    fresh_item(key, i64::MIN, 0)
}

/// Adding `num / den` to the fraction `n / d`, as fixed-width arithmetic does
/// it: the larger denominator is kept when one divides the other, else the
/// two are multiplied. `None` where an operation overflows or divides by zero.
pub open spec fn frac_add(n: i64, d: i64, num: i64, den: i64) -> Option<(i64, i64)> {
    match d.checked_rem(den) {
        None => None,
        Some(r1) => if r1 == 0 {
            match num.checked_mul(d) {
                None => None,
                Some(p) => match p.checked_div(den) {
                    None => None,
                    Some(q) => match n.checked_add(q) {
                        None => None,
                        Some(n2) => Some((n2, d)),
                    },
                },
            }
        } else {
            match den.checked_rem(d) {
                None => None,
                Some(r2) => if r2 == 0 {
                    match n.checked_mul(den) {
                        None => None,
                        Some(p) => match p.checked_div(d) {
                            None => None,
                            Some(q) => match q.checked_add(num) {
                                None => None,
                                Some(n2) => Some((n2, den)),
                            },
                        },
                    }
                } else {
                    match n.checked_mul(den) {
                        None => None,
                        Some(p1) => match d.checked_mul(num) {
                            None => None,
                            Some(p2) => match p1.checked_add(p2) {
                                None => None,
                                Some(n2) => match d.checked_mul(den) {
                                    None => None,
                                    Some(d2) => Some((n2, d2)),
                                },
                            },
                        },
                    }
                },
            }
        },
    }
}

/// Subtracting `num / den` from the fraction `n / d`, the counterpart of [`frac_add`].
pub open spec fn frac_sub(n: i64, d: i64, num: i64, den: i64) -> Option<(i64, i64)> {
    match d.checked_rem(den) {
        None => None,
        Some(r1) => if r1 == 0 {
            match num.checked_mul(d) {
                None => None,
                Some(p) => match p.checked_div(den) {
                    None => None,
                    Some(q) => match n.checked_sub(q) {
                        None => None,
                        Some(n2) => Some((n2, d)),
                    },
                },
            }
        } else {
            match den.checked_rem(d) {
                None => None,
                Some(r2) => if r2 == 0 {
                    match n.checked_mul(den) {
                        None => None,
                        Some(p) => match p.checked_div(d) {
                            None => None,
                            Some(q) => match q.checked_sub(num) {
                                None => None,
                                Some(n2) => Some((n2, den)),
                            },
                        },
                    }
                } else {
                    match n.checked_mul(den) {
                        None => None,
                        Some(p1) => match d.checked_mul(num) {
                            None => None,
                            Some(p2) => match p1.checked_sub(p2) {
                                None => None,
                                Some(n2) => match d.checked_mul(den) {
                                    None => None,
                                    Some(d2) => Some((n2, d2)),
                                },
                            },
                        },
                    }
                },
            }
        },
    }
}

/// The power of two that an exponent stands for: the exponent is taken as a
/// count, negative counts as zero; `None` where `2^e` does not fit in an `i64`.
pub open spec fn power_of_exponent(e: i64) -> Option<i64> {
    if e < 0 {
        Some(1)
    } else if e < 63 {
        Some(pow2(e as nat) as i64)
    } else {
        None
    }
}

impl ItemModel {
    pub open spec fn with_fraction(self, f: (i64, i64)) -> ItemModel {
        ItemModel { numerator: f.0, denominator: f.1, ..self }
    }

    pub open spec fn with_fraction_f(self, f: (i64, i64)) -> ItemModel {
        ItemModel { numerator_f: f.0, denominator_f: f.1, ..self }
    }

    /// Adding `x` whole units to the weight.
    pub open spec fn add_int(self, x: i64) -> Option<ItemModel> {
        match x.checked_mul(self.denominator) {
            None => None,
            Some(p) => match self.numerator.checked_add(p) {
                None => None,
                Some(n) => Some(ItemModel { numerator: n, ..self }),
            },
        }
    }

    /// Taking `x` whole units from the weight.
    pub open spec fn sub_int(self, x: i64) -> Option<ItemModel> {
        match x.checked_mul(self.denominator) {
            None => None,
            Some(p) => match self.numerator.checked_sub(p) {
                None => None,
                Some(n) => Some(ItemModel { numerator: n, ..self }),
            },
        }
    }

    pub open spec fn add_frac(self, num: i64, den: i64) -> Option<ItemModel> {
        match frac_add(self.numerator, self.denominator, num, den) {
            None => None,
            Some(f) => Some(self.with_fraction(f)),
        }
    }

    pub open spec fn sub_frac(self, num: i64, den: i64) -> Option<ItemModel> {
        match frac_sub(self.numerator, self.denominator, num, den) {
            None => None,
            Some(f) => Some(self.with_fraction(f)),
        }
    }

    pub open spec fn sub_frac_f(self, num: i64, den: i64) -> Option<ItemModel> {
        match frac_sub(self.numerator_f, self.denominator_f, num, den) {
            None => None,
            Some(f) => Some(self.with_fraction_f(f)),
        }
    }

    /// One more demotion: the exponent grows by one and `1 / 2^exponent` is taken
    /// from the weight.
    pub open spec fn demote(self) -> Option<ItemModel> {
        match self.exponent.checked_add(1) {
            None => None,
            Some(e) => match power_of_exponent(e) {
                None => None,
                Some(den) => ItemModel { exponent: e, ..self }.sub_frac(1, den),
            },
        }
    }

    /// One demotion undone: `1 / 2^exponent` is given back and the exponent
    /// shrinks by one.
    pub open spec fn promote(self) -> Option<ItemModel> {
        match power_of_exponent(self.exponent) {
            None => None,
            Some(den) => match self.add_frac(1, den) {
                None => None,
                Some(it) => match it.exponent.checked_sub(1) {
                    None => None,
                    Some(e) => Some(ItemModel { exponent: e, ..it }),
                },
            },
        }
    }

    /// A demotion of the failed-method fraction.
    pub open spec fn demote_f(self) -> Option<ItemModel> {
        match self.exponent_f.checked_add(1) {
            None => None,
            Some(e) => match power_of_exponent(e) {
                None => None,
                Some(den) => ItemModel { exponent_f: e, ..self }.sub_frac_f(1, den),
            },
        }
    }

    /// A demotion for a read: the read exponent grows, and the step is taken
    /// from the failed-method fraction.
    pub open spec fn demote_r(self) -> Option<ItemModel> {
        match self.exponent_r.checked_add(1) {
            None => None,
            Some(e) => match power_of_exponent(e) {
                None => None,
                Some(den) => ItemModel { exponent_r: e, ..self }.sub_frac_f(1, den),
            },
        }
    }

    /// The weight `numerator / denominator` is above zero, as the quotient of
    /// the two numbers taken as reals is.
    pub open spec fn sum_positive(self) -> bool {
        (self.numerator > 0 && self.denominator >= 0) || (self.numerator < 0
            && self.denominator < 0)
    }

    /// The weight `numerator / denominator` is below zero.
    pub open spec fn sum_negative(self) -> bool {
        (self.numerator < 0 && self.denominator >= 0) || (self.numerator > 0
            && self.denominator < 0)
    }
}

/// `2^e`, for an exponent taken as a count of halvings.
pub fn power_of_two(e: i64) -> (r: i64)
    requires
        power_of_exponent(e) is Some,
    ensures
        r == power_of_exponent(e).unwrap(),
{
    if e < 0 {
        return 1;
    }
    let mut r: i64 = 1;
    let mut i: i64 = 0;
    proof {
        lemma2_to64();
    }
    while i < e
        invariant
            0 <= i <= e < 63,
            r == pow2(i as nat),
        decreases e - i,
    {
        proof {
            lemma_pow2_unfold((i + 1) as nat);
            if i + 1 < 62 {
                lemma_pow2_strictly_increases((i + 1) as nat, 62);
            }
            lemma2_to64_rest();
        }
        r = r * 2;
        i = i + 1;
    }
    r
}

impl Item {
    /// The item that stands for `_key` before any method touched it.
    pub fn newFromKey(_key: i64) -> (it: Item)
        ensures
            it@ == item_of_key(_key),
    {
        Item {
            key: _key,
            value: i64::MIN,
            numerator: 0,
            denominator: 1,
            exponent: 0,
            status: Status::PRESENT,
            promote_items: Vec::new(),
            demote_methods: Vec::new(),
            producer: 0,
            numerator_f: 0,
            denominator_f: 0,
            exponent_f: 0,
            numerator_r: 0,
            denominator_r: 1,
            exponent_r: 0,
        }
    }

    /// An item of the given key and value.
    pub fn newFromVal(_key: i64, _val: i64) -> (it: Item)
        ensures
            it@ == fresh_item(_key, _val, 1),
    {
        Item {
            key: _key,
            value: _val,
            numerator: 0,
            denominator: 1,
            exponent: 0,
            status: Status::PRESENT,
            promote_items: Vec::new(),
            demote_methods: Vec::new(),
            producer: 0,
            numerator_f: 0,
            denominator_f: 1,
            exponent_f: 0,
            numerator_r: 0,
            denominator_r: 1,
            exponent_r: 0,
        }
    }

    /// A copy of the item, stacks included.
    pub fn duplicate(&self) -> (r: Item)
        ensures
            r@ == self@,
    {
        Item {
            key: self.key,
            value: self.value,
            numerator: self.numerator,
            denominator: self.denominator,
            exponent: self.exponent,
            status: self.status,
            promote_items: self.promote_items.clone(),
            demote_methods: self.demote_methods.clone(),
            producer: self.producer,
            numerator_f: self.numerator_f,
            denominator_f: self.denominator_f,
            exponent_f: self.exponent_f,
            numerator_r: self.numerator_r,
            denominator_r: self.denominator_r,
            exponent_r: self.exponent_r,
        }
    }

    /// Whether the weight is above zero.
    pub fn sum_is_positive(&self) -> (r: bool)
        ensures
            r == self@.sum_positive(),
    {
        (self.numerator > 0 && self.denominator >= 0) || (self.numerator < 0 && self.denominator
            < 0)
    }

    /// Whether the weight is below zero.
    pub fn sum_is_negative(&self) -> (r: bool)
        ensures
            r == self@.sum_negative(),
    {
        (self.numerator < 0 && self.denominator >= 0) || (self.numerator > 0 && self.denominator
            < 0)
    }

    pub fn add_int(&mut self, x: i64)
        requires
            i64::MIN <= x * old(self).denominator <= i64::MAX,
            i64::MIN <= old(self).numerator + x * old(self).denominator <= i64::MAX,
        ensures
            final(self)@ == (ItemModel {
                numerator: (old(self).numerator + x * old(self).denominator) as i64,
                ..old(self)@
            }),
            final(self)@ == old(self)@.add_int(x).unwrap(),
    {
        let add_num: i64 = x * self.denominator;
        self.numerator = self.numerator + add_num;
    }

    pub fn sub_int(&mut self, x: i64)
        requires
            i64::MIN <= x * old(self).denominator <= i64::MAX,
            i64::MIN <= old(self).numerator - x * old(self).denominator <= i64::MAX,
        ensures
            final(self)@ == (ItemModel {
                numerator: (old(self).numerator - x * old(self).denominator) as i64,
                ..old(self)@
            }),
            final(self)@ == old(self)@.sub_int(x).unwrap(),
    {
        let sub_num: i64 = x * self.denominator;
        self.numerator = self.numerator - sub_num;
    }

    pub fn add_frac(&mut self, num: i64, den: i64)
        requires
            old(self)@.add_frac(num, den) is Some,
        ensures
            final(self)@ == old(self)@.add_frac(num, den).unwrap(),
    {
        if self.denominator.checked_rem(den).unwrap() == 0 {
            let q = num.checked_mul(self.denominator).unwrap().checked_div(den).unwrap();
            self.numerator = self.numerator.checked_add(q).unwrap();
        } else if den.checked_rem(self.denominator).unwrap() == 0 {
            let q = self.numerator.checked_mul(den).unwrap().checked_div(self.denominator).unwrap();
            self.numerator = q.checked_add(num).unwrap();
            self.denominator = den;
        } else {
            let p1 = self.numerator.checked_mul(den).unwrap();
            let p2 = self.denominator.checked_mul(num).unwrap();
            self.numerator = p1.checked_add(p2).unwrap();
            self.denominator = self.denominator.checked_mul(den).unwrap();
        }
    }

    pub fn sub_frac(&mut self, num: i64, den: i64)
        requires
            old(self)@.sub_frac(num, den) is Some,
        ensures
            final(self)@ == old(self)@.sub_frac(num, den).unwrap(),
    {
        if self.denominator.checked_rem(den).unwrap() == 0 {
            let q = num.checked_mul(self.denominator).unwrap().checked_div(den).unwrap();
            self.numerator = self.numerator.checked_sub(q).unwrap();
        } else if den.checked_rem(self.denominator).unwrap() == 0 {
            let q = self.numerator.checked_mul(den).unwrap().checked_div(self.denominator).unwrap();
            self.numerator = q.checked_sub(num).unwrap();
            self.denominator = den;
        } else {
            let p1 = self.numerator.checked_mul(den).unwrap();
            let p2 = self.denominator.checked_mul(num).unwrap();
            self.numerator = p1.checked_sub(p2).unwrap();
            self.denominator = self.denominator.checked_mul(den).unwrap();
        }
    }

    pub fn demote(&mut self)
        requires
            old(self)@.demote() is Some,
        ensures
            final(self)@ == old(self)@.demote().unwrap(),
    {
        self.exponent = self.exponent + 1;
        let den: i64 = power_of_two(self.exponent);
        self.sub_frac(1, den);
    }

    pub fn promote(&mut self)
        requires
            old(self)@.promote() is Some,
        ensures
            final(self)@ == old(self)@.promote().unwrap(),
    {
        let den: i64 = power_of_two(self.exponent);
        self.add_frac(1, den);
        self.exponent = self.exponent - 1;
    }

    pub fn sub_frac_f(&mut self, num: i64, den: i64)
        requires
            old(self)@.sub_frac_f(num, den) is Some,
        ensures
            final(self)@ == old(self)@.sub_frac_f(num, den).unwrap(),
    {
        if self.denominator_f.checked_rem(den).unwrap() == 0 {
            let q = num.checked_mul(self.denominator_f).unwrap().checked_div(den).unwrap();
            self.numerator_f = self.numerator_f.checked_sub(q).unwrap();
        } else if den.checked_rem(self.denominator_f).unwrap() == 0 {
            let q = self.numerator_f.checked_mul(den).unwrap().checked_div(
                self.denominator_f,
            ).unwrap();
            self.numerator_f = q.checked_sub(num).unwrap();
            self.denominator_f = den;
        } else {
            let p1 = self.numerator_f.checked_mul(den).unwrap();
            let p2 = num.checked_mul(self.denominator_f).unwrap();
            self.numerator_f = p1.checked_sub(p2).unwrap();
            self.denominator_f = self.denominator_f.checked_mul(den).unwrap();
        }
    }

    pub fn demote_f(&mut self)
        requires
            old(self)@.demote_f() is Some,
        ensures
            final(self)@ == old(self)@.demote_f().unwrap(),
    {
        self.exponent_f = self.exponent_f + 1;
        let den: i64 = power_of_two(self.exponent_f);
        self.sub_frac_f(1, den);
    }

    pub fn demote_r(&mut self)
        requires
            old(self)@.demote_r() is Some,
        ensures
            final(self)@ == old(self)@.demote_r().unwrap(),
    {
        self.exponent_r = self.exponent_r + 1;
        let den: i64 = power_of_two(self.exponent_r);
        self.sub_frac_f(1, den);
    }
}

/// Taking away whole units undoes adding them.
pub proof fn law_sub_int_undoes_add_int(x: ItemModel, k: i64)
    requires
        x.add_int(k) is Some,
    ensures
        x.add_int(k).unwrap().sub_int(k) == Some(x),
{
}

/// `(m * k) / k` truncates to `m` for a positive `k`, whatever the sign of `m`.
proof fn lemma_div_exact(m: int, k: int)
    requires
        k > 0,
        i64::MIN <= m * k <= i64::MAX,
        i64::MIN <= m <= i64::MAX,
        k <= i64::MAX,
    ensures
        ((m * k) as i64).checked_div(k as i64) == Some(m as i64),
{
    lemma_div_multiples_vanish(m, k);
    lemma_div_multiples_vanish(-m, k);
    assert(k * m == m * k) by (nonlinear_arith);
    assert(k * (-m) == (m * k) * -1) by (nonlinear_arith);
    if m * k == 0 {
        assert(m == 0) by (nonlinear_arith)
            requires
                m * k == 0,
                k > 0,
        ;
    } else if m * k > 0 {
        assert(m > 0) by (nonlinear_arith)
            requires
                m * k > 0,
                k > 0,
        ;
    } else {
        assert(m < 0) by (nonlinear_arith)
            requires
                m * k < 0,
                k > 0,
        ;
    }
}

/// For positive numbers, a zero remainder means divisibility.
proof fn lemma_rem_zero(a: i64, b: i64)
    requires
        a > 0,
        b > 0,
        a.checked_rem(b) == Some(0i64),
    ensures
        a == (a / b) * b,
        a / b > 0,
{
    lemma_fundamental_div_mod(a as int, b as int);
    assert(a % b == 0);
    assert(b * (a / b) == (a / b) * b) by (nonlinear_arith);
    if a / b <= 0 {
        assert((a / b) * b <= 0) by (nonlinear_arith)
            requires
                a / b <= 0,
                b > 0,
        ;
    }
}

/// A demotion followed by a promotion gives the item back: the same exponent
/// and the same weight, `numerator / denominator` taken as a fraction.
pub proof fn law_promote_undoes_demote(x: ItemModel)
    requires
        x.denominator > 0,
        x.demote() is Some,
        x.demote().unwrap().promote() is Some,
    ensures
        ({
            let z = x.demote().unwrap().promote().unwrap();
            &&& z.exponent == x.exponent
            &&& z.denominator > 0
            &&& z.numerator * x.denominator == x.numerator * z.denominator
            &&& z == ItemModel { numerator: z.numerator, denominator: z.denominator, ..x }
        }),
{
    let e = (x.exponent + 1) as i64;
    let den = power_of_exponent(e).unwrap();
    if e >= 0 {
        lemma_pow2_pos(e as nat);
        if e < 62 {
            lemma_pow2_strictly_increases(e as nat, 62);
        }
        lemma2_to64_rest();
    }
    assert(den > 0);
    let n = x.numerator;
    let d = x.denominator;
    let y = x.demote().unwrap();
    let z = y.promote().unwrap();
    assert(y.exponent == e);
    assert(z.exponent == x.exponent);
    if d.checked_rem(den) == Some(0i64) {
        lemma_rem_zero(d, den);
        let r = d / den;
        lemma_div_exact(r as int, den as int);
        assert(y.numerator == n - r && y.denominator == d);
        assert(den.checked_rem(den) == Some(0i64)) by {
            lemma_div_multiples_vanish(1, den as int);
            lemma_fundamental_div_mod(den as int, den as int);
        }
        assert(z.numerator == n && z.denominator == d);
    } else if den.checked_rem(d) == Some(0i64) {
        lemma_rem_zero(den, d);
        let r = den / d;
        assert(n * den == (n * r) * d) by (nonlinear_arith)
            requires
                den == r * d,
        ;
        assert(x.numerator.checked_mul(den) is Some);
        assert(i64::MIN <= n * r <= i64::MAX) by (nonlinear_arith)
            requires
                n * den == (n * r) * d,
                i64::MIN <= n * den <= i64::MAX,
                d >= 1,
        ;
        lemma_div_exact(n * r, d as int);
        assert(y.numerator == n * r - 1 && y.denominator == den);
        assert(den.checked_rem(den) == Some(0i64)) by {
            lemma_div_multiples_vanish(1, den as int);
            lemma_fundamental_div_mod(den as int, den as int);
        }
        lemma_div_exact(1, den as int);
        assert(z.numerator == n * r && z.denominator == den);
        assert((n * r) * d == n * den) by (nonlinear_arith)
            requires
                den == r * d,
        ;
    } else {
        assert(y.numerator == n * den - d * 1 && y.denominator == d * den);
        assert((d * den) as i64 % den == 0) by {
            lemma_div_multiples_vanish(d as int, den as int);
            lemma_fundamental_div_mod(d * den, den as int);
            assert(den * d == d * den) by (nonlinear_arith);
        }
        lemma_div_exact(d as int, den as int);
        assert(z.numerator == n * den && z.denominator == d * den);
        assert((n * den) * d == n * (d * den)) by (nonlinear_arith);
        assert(d * den > 0) by (nonlinear_arith)
            requires
                d > 0,
                den > 0,
        ;
    }
}

/// The denominator that adding or subtracting `num / den` to `n / d` keeps:
/// the larger of the two where one divides the other, else their product.
pub open spec fn kept_denominator(d: int, den: int) -> int {
    if d % den == 0 {
        d
    } else if den % d == 0 {
        den
    } else {
        d * den
    }
}

/// The rational value of `n / d` plus (`sign` 1) or minus (`sign` -1) `num / den`,
/// put over the denominator `d2`: the numerator `n2` is right exactly when
/// `n2 / d2 == n / d + sign * num / den`.
pub open spec fn is_sum_over(n: int, d: int, num: int, den: int, sign: int, n2: int, d2: int) -> bool {
    n2 * (d * den) == (n * den + sign * num * d) * d2
}

/// Where `den` divides `d`, `num * d / den` is exact, and so is the
/// numerator that frac arithmetic gets from it.
proof fn lemma_scaled(num: i64, d: i64, den: i64)
    requires
        d > 0,
        den > 0,
        d.checked_rem(den) == Some(0i64),
        num.checked_mul(d) is Some,
    ensures
        (num.checked_mul(d).unwrap()).checked_div(den) == Some((num * (d / den)) as i64),
        num * (d / den) * den == num * d,
        d % den == 0,
        i64::MIN <= num * (d / den) <= i64::MAX,
{
    lemma_rem_zero(d, den);
    let r = d / den;
    assert(num * d == (num * r) * den) by (nonlinear_arith)
        requires
            d == r * den,
    ;
    assert(i64::MIN <= num * r <= i64::MAX) by (nonlinear_arith)
        requires
            num * d == (num * r) * den,
            i64::MIN <= num * d <= i64::MAX,
            den >= 1,
    ;
    lemma_div_exact(num * r, den as int);
    lemma_fundamental_div_mod(d as int, den as int);
}

/// Adding `num / den` to `n / d` gives the sum of the two fractions, over the
/// denominator that [`kept_denominator`] says.
pub proof fn law_frac_add_value(n: i64, d: i64, num: i64, den: i64)
    requires
        d > 0,
        den > 0,
        frac_add(n, d, num, den) is Some,
    ensures
        ({
            let f = frac_add(n, d, num, den).unwrap();
            &&& f.1 == kept_denominator(d as int, den as int)
            &&& is_sum_over(n as int, d as int, num as int, den as int, 1, f.0 as int, f.1 as int)
        }),
{
    let f = frac_add(n, d, num, den).unwrap();
    if d.checked_rem(den) == Some(0i64) {
        lemma_scaled(num, d, den);
        let r = d / den;
        assert(f.0 == n + num * r && f.1 == d);
        assert((n + num * r) * (d * den) == (n * den + 1 * num * d) * d) by (nonlinear_arith)
            requires
                num * r * den == num * d,
        ;
    } else {
        assert(d % den != 0);
        if den.checked_rem(d) == Some(0i64) {
            lemma_scaled(n, den, d);
            let r = den / d;
            assert(f.0 == n * r + num && f.1 == den);
            assert((n * r + num) * (d * den) == (n * den + 1 * num * d) * den) by (nonlinear_arith)
                requires
                    n * r * d == n * den,
            ;
        } else {
            assert(den % d != 0);
            assert(f.0 == n * den + d * num && f.1 == d * den);
            assert((n * den + d * num) * (d * den) == (n * den + 1 * num * d) * (d * den))
                by (nonlinear_arith);
        }
    }
}

/// Subtracting `num / den` from `n / d` gives the difference of the two
/// fractions, over the denominator that [`kept_denominator`] says.
pub proof fn law_frac_sub_value(n: i64, d: i64, num: i64, den: i64)
    requires
        d > 0,
        den > 0,
        frac_sub(n, d, num, den) is Some,
    ensures
        ({
            let f = frac_sub(n, d, num, den).unwrap();
            &&& f.1 == kept_denominator(d as int, den as int)
            &&& is_sum_over(n as int, d as int, num as int, den as int, -1, f.0 as int, f.1 as int)
        }),
{
    let f = frac_sub(n, d, num, den).unwrap();
    if d.checked_rem(den) == Some(0i64) {
        lemma_scaled(num, d, den);
        let r = d / den;
        assert(f.0 == n - num * r && f.1 == d);
        assert((n - num * r) * (d * den) == (n * den + -1 * num * d) * d) by (nonlinear_arith)
            requires
                num * r * den == num * d,
        ;
    } else {
        assert(d % den != 0);
        if den.checked_rem(d) == Some(0i64) {
            lemma_scaled(n, den, d);
            let r = den / d;
            assert(f.0 == n * r - num && f.1 == den);
            assert((n * r - num) * (d * den) == (n * den + -1 * num * d) * den) by (nonlinear_arith)
                requires
                    n * r * d == n * den,
            ;
        } else {
            assert(den % d != 0);
            assert(f.0 == n * den - d * num && f.1 == d * den);
            assert((n * den - d * num) * (d * den) == (n * den + -1 * num * d) * (d * den))
                by (nonlinear_arith);
        }
    }
}

/// Taking away a fraction undoes adding it: the weight comes back to the same
/// rational value (over a denominator that may be larger), and nothing else
/// of the item changes.
pub proof fn law_sub_frac_undoes_add_frac(x: ItemModel, num: i64, den: i64)
    requires
        x.denominator > 0,
        den > 0,
        x.add_frac(num, den) is Some,
        x.add_frac(num, den).unwrap().sub_frac(num, den) is Some,
    ensures
        ({
            let z = x.add_frac(num, den).unwrap().sub_frac(num, den).unwrap();
            &&& z.denominator > 0
            &&& z.numerator * x.denominator == x.numerator * z.denominator
            &&& z == ItemModel { numerator: z.numerator, denominator: z.denominator, ..x }
        }),
{
    let n = x.numerator as int;
    let d = x.denominator as int;
    let y = x.add_frac(num, den).unwrap();
    let z = y.sub_frac(num, den).unwrap();
    law_frac_add_value(x.numerator, x.denominator, num, den);
    assert(d * den > 0) by (nonlinear_arith)
        requires
            d > 0,
            den > 0,
    ;
    let yd = y.denominator as int;
    assert(yd > 0);
    law_frac_sub_value(y.numerator, y.denominator, num, den);
    assert(yd * den > 0) by (nonlinear_arith)
        requires
            yd > 0,
            den > 0,
    ;
    let zd = z.denominator as int;
    assert(zd > 0);
    let yn = y.numerator as int;
    let zn = z.numerator as int;
    let a = num as int;
    let e = den as int;
    assert(yn * (d * e) == (n * e + 1 * a * d) * yd);
    assert(zn * (yd * e) == (yn * e + -1 * a * yd) * zd);
    let p = yd * e;
    let w = yn * e - a * yd;
    assert(yn * e * d == (n * e + a * d) * yd) by (nonlinear_arith)
        requires
            yn * (d * e) == (n * e + 1 * a * d) * yd,
    ;
    assert(w * d == n * e * yd) by (nonlinear_arith)
        requires
            yn * e * d == (n * e + a * d) * yd,
            w == yn * e - a * yd,
    ;
    assert(zn * p == w * zd) by (nonlinear_arith)
        requires
            zn * (yd * e) == (yn * e + -1 * a * yd) * zd,
            w == yn * e - a * yd,
            p == yd * e,
    ;
    assert((zn * d) * p == (w * d) * zd) by (nonlinear_arith)
        requires
            zn * p == w * zd,
    ;
    assert((n * e * yd) * zd == (n * zd) * p) by (nonlinear_arith)
        requires
            p == yd * e,
    ;
    assert((zn * d) * (yd * e) == (n * zd) * (yd * e));
    assert(zn * d == n * zd) by (nonlinear_arith)
        requires
            (zn * d) * (yd * e) == (n * zd) * (yd * e),
            yd * e > 0,
    ;
}

/// Whether subtracting `num / den` from `n / d` goes through, as [`frac_sub`] says.
pub fn frac_sub_goes_through(n: i64, d: i64, num: i64, den: i64) -> (ok: bool)
    ensures
        ok == (frac_sub(n, d, num, den) is Some),
{
    match d.checked_rem(den) {
        None => false,
        Some(r1) => if r1 == 0 {
            match num.checked_mul(d) {
                None => false,
                Some(p) => match p.checked_div(den) {
                    None => false,
                    Some(q) => n.checked_sub(q).is_some(),
                },
            }
        } else {
            match den.checked_rem(d) {
                None => false,
                Some(r2) => if r2 == 0 {
                    match n.checked_mul(den) {
                        None => false,
                        Some(p) => match p.checked_div(d) {
                            None => false,
                            Some(q) => q.checked_sub(num).is_some(),
                        },
                    }
                } else {
                    match n.checked_mul(den) {
                        None => false,
                        Some(p1) => match d.checked_mul(num) {
                            None => false,
                            Some(p2) => match p1.checked_sub(p2) {
                                None => false,
                                Some(_) => d.checked_mul(den).is_some(),
                            },
                        },
                    }
                },
            }
        },
    }
}

impl Item {
    /// Whether a read demotion of the item goes through, as [`ItemModel::demote_r`] says.
    pub fn demote_r_goes_through(&self) -> (ok: bool)
        ensures
            ok == (self@.demote_r() is Some),
    {
        match self.exponent_r.checked_add(1) {
            None => false,
            Some(e) => {
                if e >= 63 {
                    false
                } else {
                    let den = power_of_two(e);
                    frac_sub_goes_through(self.numerator_f, self.denominator_f, 1, den)
                }
            },
        }
    }

    /// Whether adding `x` whole units goes through, as [`ItemModel::add_int`] says.
    pub fn add_int_goes_through(&self, x: i64) -> (ok: bool)
        ensures
            ok == (self@.add_int(x) is Some),
    {
        match x.checked_mul(self.denominator) {
            None => false,
            Some(p) => self.numerator.checked_add(p).is_some(),
        }
    }

    /// Whether a demotion of the item goes through, as [`ItemModel::demote`] says.
    pub fn demote_goes_through(&self) -> (ok: bool)
        ensures
            ok == (self@.demote() is Some),
    {
        match self.exponent.checked_add(1) {
            None => false,
            Some(e) => {
                if e >= 63 {
                    false
                } else {
                    let den = power_of_two(e);
                    frac_sub_goes_through(self.numerator, self.denominator, 1, den)
                }
            },
        }
    }

    /// Whether a demotion of the failed-method fraction goes through, as
    /// [`ItemModel::demote_f`] says.
    pub fn demote_f_goes_through(&self) -> (ok: bool)
        ensures
            ok == (self@.demote_f() is Some),
    {
        match self.exponent_f.checked_add(1) {
            None => false,
            Some(e) => {
                if e >= 63 {
                    false
                } else {
                    let den = power_of_two(e);
                    frac_sub_goes_through(self.numerator_f, self.denominator_f, 1, den)
                }
            },
        }
    }

    /// Whether taking `x` whole units goes through, as [`ItemModel::sub_int`] says.
    pub fn sub_int_goes_through(&self, x: i64) -> (ok: bool)
        ensures
            ok == (self@.sub_int(x) is Some),
    {
        match x.checked_mul(self.denominator) {
            None => false,
            Some(p) => self.numerator.checked_sub(p).is_some(),
        }
    }
}

} // verus!
