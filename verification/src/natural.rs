//! Natural numbers of any size.

use vstd::arithmetic::power2::*;
use vstd::prelude::*;

verus! {

/// Base of the digits.
pub const BASE: u64 = 0x1_0000_0000;

/// A natural number, as digits to a base, the lowest first.
pub struct Natural {
    digits: Vec<u32>,
}

/// The digit at a position; zero behind the last one.
spec fn digit_at(digits: Seq<u32>, at: int) -> int {
    if 0 <= at < digits.len() {
        digits[at] as int
    } else {
        0
    }
}

/// What a one at a position stands for.
spec fn place(at: nat) -> nat
    decreases at,
{
    if at == 0 {
        1
    } else {
        BASE as nat * place((at - 1) as nat)
    }
}

/// The number that the digits in front of a position make up.
spec fn number_below(digits: Seq<u32>, upto: nat) -> nat
    decreases upto,
{
    if upto == 0 {
        0
    } else {
        (number_below(digits, (upto - 1) as nat) + digit_at(digits, upto - 1) * place(
            (upto - 1) as nat,
        )) as nat
    }
}

impl View for Natural {
    type V = nat;

    closed spec fn view(&self) -> nat {
        number_below(self.digits@, self.digits@.len())
    }
}

proof fn numbers_are_below(digits: Seq<u32>, upto: nat)
    ensures
        number_below(digits, upto) < place(upto),
    decreases upto,
{
    if upto > 0 {
        let before = (upto - 1) as nat;
        numbers_are_below(digits, before);
        let digit = digit_at(digits, upto - 1);
        let unit = place(before);
        assert(digit * unit <= (BASE - 1) * unit) by (nonlinear_arith)
            requires
                0 <= digit <= BASE - 1,
                unit >= 0,
        ;
        assert((BASE - 1) * unit + unit == BASE * unit) by (nonlinear_arith);
    }
}

proof fn zeros_add_nothing(digits: Seq<u32>, upto: nat)
    requires
        upto >= digits.len(),
    ensures
        number_below(digits, upto) == number_below(digits, digits.len()),
    decreases upto,
{
    if upto > digits.len() {
        zeros_add_nothing(digits, (upto - 1) as nat);
        assert(0 * place((upto - 1) as nat) == 0);
    }
}

proof fn later_digits_do_not_count(digits: Seq<u32>, longer: Seq<u32>, upto: nat)
    requires
        upto <= digits.len() <= longer.len(),
        forall|at: int| 0 <= at < digits.len() ==> longer[at] == digits[at],
    ensures
        number_below(longer, upto) == number_below(digits, upto),
    decreases upto,
{
    if upto > 0 {
        later_digits_do_not_count(digits, longer, (upto - 1) as nat);
    }
}

/// A digit and what is carried behind it.
proof fn carrying(low: int, total: int, unit: int)
    requires
        0 <= total,
    ensures
        low + (total % (BASE as int)) * unit + (total / (BASE as int)) * (BASE * unit) == low
            + total * unit,
{
    let digit = total % (BASE as int);
    let carry = total / (BASE as int);
    assert(total == BASE * carry + digit) by (nonlinear_arith)
        requires
            digit == total % (BASE as int),
            carry == total / (BASE as int),
    ;
    assert(digit * unit + carry * (BASE * unit) == (BASE * carry + digit) * unit)
        by (nonlinear_arith);
}

impl Natural {
    /// A small number.
    pub fn new(value: u64) -> (number: Natural)
        ensures
            number@ == value,
    {
        let low: u32 = (value % BASE) as u32;
        let high: u32 = (value / BASE) as u32;
        let mut digits: Vec<u32> = Vec::new();
        digits.push(low);
        digits.push(high);
        proof {
            assert(place(0) == 1);
            assert(place(1) == BASE * place(0));
            assert(low * place(0) == low);
            assert(high * place(1) == BASE * high) by (nonlinear_arith)
                requires
                    place(1) == BASE,
            ;
            assert(number_below(digits@, 0) == 0);
            assert(number_below(digits@, 1) == low);
            assert(number_below(digits@, 2) == low + BASE * high);
        }
        Natural { digits }
    }

    /// The product with a small number.
    pub fn times(&self, factor: u32) -> (product: Natural)
        ensures
            product@ == self@ * factor,
    {
        let mut digits: Vec<u32> = Vec::new();
        let mut carry: u64 = 0;
        proof {
            assert(0 * (factor as nat) == 0) by (nonlinear_arith);
        }
        while digits.len() < self.digits.len()
            invariant
                digits@.len() <= self.digits@.len(),
                carry < BASE,
                number_below(digits@, digits@.len()) + carry * place(digits@.len()) == number_below(
                    self.digits@,
                    digits@.len(),
                ) * factor,
            decreases self.digits@.len() - digits@.len(),
        {
            let digit: u32 = self.digits[digits.len()];
            proof {
                assert(digit * factor <= (BASE - 1) * (BASE - 1)) by (nonlinear_arith)
                    requires
                        digit <= BASE - 1,
                        factor <= BASE - 1,
                ;
            }
            let total: u64 = digit as u64 * factor as u64 + carry;
            let ghost before = digits@;
            digits.push((total % BASE) as u32);
            proof {
                let unit = place(before.len());
                let low = number_below(before, before.len());
                let done = number_below(self.digits@, before.len());
                later_digits_do_not_count(before, digits@, before.len());
                carrying(low as int, total as int, unit as int);
                assert(total * unit == (digit * factor) * unit + carry * unit) by (nonlinear_arith)
                    requires
                        total == digit * factor + carry,
                ;
                assert((done + digit * unit) * factor == done * factor + (digit * factor) * unit)
                    by (nonlinear_arith);
                assert(total / BASE < BASE) by (nonlinear_arith)
                    requires
                        0 <= total <= (BASE - 1) * (BASE - 1) + BASE - 1,
                ;
            }
            carry = total / BASE;
        }
        let ghost before = digits@;
        digits.push(carry as u32);
        proof {
            later_digits_do_not_count(before, digits@, before.len());
        }
        Natural { digits }
    }

    /// The sum with another number.
    pub fn plus(&self, other: &Natural) -> (sum: Natural)
        ensures
            sum@ == self@ + other@,
    {
        let count: usize = if self.digits.len() < other.digits.len() {
            other.digits.len()
        } else {
            self.digits.len()
        };
        let mut digits: Vec<u32> = Vec::new();
        let mut carry: u64 = 0;
        while digits.len() < count
            invariant
                digits@.len() <= count,
                carry < BASE,
                number_below(digits@, digits@.len()) + carry * place(digits@.len()) == number_below(
                    self.digits@,
                    digits@.len(),
                ) + number_below(other.digits@, digits@.len()),
            decreases count - digits@.len(),
        {
            let left: u32 = self.digit(digits.len());
            let right: u32 = other.digit(digits.len());
            let total: u64 = left as u64 + right as u64 + carry;
            let ghost before = digits@;
            digits.push((total % BASE) as u32);
            proof {
                let unit = place(before.len());
                later_digits_do_not_count(before, digits@, before.len());
                carrying(number_below(before, before.len()) as int, total as int, unit as int);
                assert(total * unit == left * unit + right * unit + carry * unit)
                    by (nonlinear_arith)
                    requires
                        total == left + right + carry,
                ;
            }
            carry = total / BASE;
        }
        let ghost before = digits@;
        digits.push(carry as u32);
        proof {
            later_digits_do_not_count(before, digits@, before.len());
            zeros_add_nothing(self.digits@, before.len());
            zeros_add_nothing(other.digits@, before.len());
        }
        Natural { digits }
    }

    /// The digit at a position.
    fn digit(&self, at: usize) -> (digit: u32)
        ensures
            digit == digit_at(self.digits@, at as int),
    {
        if at < self.digits.len() {
            self.digits[at]
        } else {
            0
        }
    }

    /// Tells whether the number is less than another one.
    pub fn is_less(&self, other: &Natural) -> (answer: bool)
        ensures
            answer == (self@ < other@),
    {
        let count: usize = if self.digits.len() < other.digits.len() {
            other.digits.len()
        } else {
            self.digits.len()
        };
        let mut answer: bool = false;
        let mut at: usize = 0;
        while at < count
            invariant
                at <= count,
                answer == (number_below(self.digits@, at as nat) < number_below(
                    other.digits@,
                    at as nat,
                )),
            decreases count - at,
        {
            let left: u32 = self.digit(at);
            let right: u32 = other.digit(at);
            proof {
                let unit = place(at as nat);
                numbers_are_below(self.digits@, at as nat);
                numbers_are_below(other.digits@, at as nat);
                if left < right {
                    assert(left * unit + unit <= right * unit) by (nonlinear_arith)
                        requires
                            left + 1 <= right,
                            unit >= 0,
                    ;
                } else if right < left {
                    assert(right * unit + unit <= left * unit) by (nonlinear_arith)
                        requires
                            right + 1 <= left,
                            unit >= 0,
                    ;
                }
            }
            if left != right {
                answer = left < right;
            }
            at = at + 1;
        }
        proof {
            zeros_add_nothing(self.digits@, count as nat);
            zeros_add_nothing(other.digits@, count as nat);
        }
        answer
    }

    /// The product with a power of two.
    pub fn doubled(&self, count: u32) -> (product: Natural)
        ensures
            product@ == self@ * pow2(count as nat),
    {
        let mut product: Natural = self.times(1);
        let mut done: u32 = 0;
        proof {
            lemma2_to64();
        }
        while done < count
            invariant
                done <= count,
                product@ == self@ * pow2(done as nat),
            decreases count - done,
        {
            product = product.times(2);
            proof {
                lemma_pow2_unfold((done + 1) as nat);
                assert(self@ * pow2(done as nat) * 2 == self@ * (2 * pow2(done as nat)))
                    by (nonlinear_arith);
            }
            done = done + 1;
        }
        product
    }
}

} // verus!
