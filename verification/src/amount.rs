//! Asset quantities: an integer number of base units together with the number
//! of decimal places that separates base units from whole units.

use vstd::prelude::*;
use vstd::string::*;
use vstd::arithmetic::div_mod::*;
use vstd::arithmetic::mul::*;
use crate::decimal::{
    all_digits, decimal_text, decimal_value, digit_of, fixed_text, format_decimal, format_fixed,
    is_digit, lemma_decimal_text_digits, lemma_decimal_text_value, lemma_decimal_value_concat,
    lemma_decimal_value_grows, lemma_fixed_text_digits, lemma_fixed_text_value, lemma_pow10_add,
    lemma_pow10_monotonic, lemma_pow10_positive, pow10,
};

verus! {

/// Why an amount could not be built or combined.
#[derive(Clone, Copy, Debug, PartialEq, Eq, Structural)]
pub enum AmountError {
    /// The text is not a decimal number.
    Malformed,
    /// Two precisions disagree, or a value has more decimal places than its precision allows.
    PrecisionMismatch,
    /// The result does not fit in 64 bits.
    Overflow,
    /// The result would be negative.
    Underflow,
}

/// A quantity of an asset: `value` base units, of which `10^precision` make one whole unit.
#[derive(Clone, Copy, Debug, PartialEq, Eq, Structural)]
pub struct ContractAmount {
    pub value: u64,
    pub precision: u8,
}

/// The index of the first decimal point of `s`, or the length of `s` if it has none.
pub open spec fn first_dot(s: Seq<char>) -> int
    decreases s.len(),
{
    if s.len() == 0 || s[0] == '.' {
        0
    } else {
        1 + first_dot(s.drop_first())
    }
}

/// What stands before the first decimal point.
pub open spec fn whole_part(s: Seq<char>) -> Seq<char> {
    s.subrange(0, first_dot(s))
}

/// What stands after the first decimal point; empty if there is none.
pub open spec fn fraction_part(s: Seq<char>) -> Seq<char> {
    if first_dot(s) < s.len() {
        s.subrange(first_dot(s) + 1, s.len() as int)
    } else {
        Seq::<char>::empty()
    }
}

/// The grammar of an amount: digits, optionally followed by a point and more digits.
pub open spec fn well_formed(s: Seq<char>) -> bool {
    &&& whole_part(s).len() > 0
    &&& all_digits(whole_part(s))
    &&& first_dot(s) < s.len() ==> fraction_part(s).len() > 0
    &&& all_digits(fraction_part(s))
}

/// The number of base units that a well-formed text denotes at `precision` decimal places.
pub open spec fn text_value(s: Seq<char>, precision: nat) -> nat
    recommends
        fraction_part(s).len() <= precision,
{
    decimal_value(whole_part(s)) * pow10(precision) + decimal_value(fraction_part(s)) * pow10(
        (precision - fraction_part(s).len()) as nat,
    )
}

/// The meaning of `ContractAmount::parse`.
pub open spec fn parse_spec(s: Seq<char>, precision: u8) -> Result<ContractAmount, AmountError> {
    if !well_formed(s) {
        Err(AmountError::Malformed)
    } else if fraction_part(s).len() > precision {
        Err(AmountError::PrecisionMismatch)
    } else if text_value(s, precision as nat) > u64::MAX {
        Err(AmountError::Overflow)
    } else {
        Ok(ContractAmount { value: text_value(s, precision as nat) as u64, precision })
    }
}

/// The text of an amount: the whole units, then, where the precision is not
/// zero, a point and exactly `precision` decimal places.
pub open spec fn amount_text(value: nat, precision: nat) -> Seq<char> {
    if precision == 0 {
        decimal_text(value)
    } else {
        decimal_text(value / pow10(precision)) + seq!['.'] + fixed_text(value, precision)
    }
}

/// The meaning of `ContractAmount::with`.
pub open spec fn with_spec(whole: u64, fraction: u64, precision: u8) -> Result<
    ContractAmount,
    AmountError,
> {
    if fraction >= pow10(precision as nat) {
        Err(AmountError::PrecisionMismatch)
    } else if whole * pow10(precision as nat) + fraction > u64::MAX {
        Err(AmountError::Overflow)
    } else {
        Ok(
            ContractAmount {
                value: (whole * pow10(precision as nat) + fraction) as u64,
                precision,
            },
        )
    }
}

/// The meaning of `ContractAmount::rescale`.
pub open spec fn rescale_spec(a: ContractAmount, precision: u8) -> Result<
    ContractAmount,
    AmountError,
> {
    if precision >= a.precision {
        let scaled = a.value * pow10((precision - a.precision) as nat);
        if scaled > u64::MAX {
            Err(AmountError::Overflow)
        } else {
            Ok(ContractAmount { value: scaled as u64, precision })
        }
    } else {
        let unit = pow10((a.precision - precision) as nat);
        if a.value as nat % unit != 0 {
            Err(AmountError::PrecisionMismatch)
        } else {
            Ok(ContractAmount { value: (a.value as nat / unit) as u64, precision })
        }
    }
}

/// A position before which no point stands, and which is a point or the end, is the first point.
pub proof fn lemma_first_dot_is(s: Seq<char>, i: int)
    requires
        0 <= i <= s.len(),
        forall|j: int| 0 <= j < i ==> s[j] != '.',
        i < s.len() ==> s[i] == '.',
    ensures
        first_dot(s) == i,
    decreases i,
{
    if i > 0 {
        let t = s.drop_first();
        assert forall|j: int| 0 <= j < i - 1 implies t[j] != '.' by {
            assert(t[j] == s[j + 1]);
        }
        lemma_first_dot_is(t, i - 1);
    }
}

/// The first point lies within the text, with no point before it.
pub proof fn lemma_first_dot_bounds(s: Seq<char>)
    ensures
        0 <= first_dot(s) <= s.len(),
        forall|j: int| 0 <= j < first_dot(s) ==> s[j] != '.',
        first_dot(s) < s.len() ==> s[first_dot(s)] == '.',
    decreases s.len(),
{
    if s.len() == 0 || s[0] == '.' {
    } else {
        let t = s.drop_first();
        lemma_first_dot_bounds(t);
        assert forall|j: int| 0 <= j < first_dot(s) implies s[j] != '.' by {
            if j > 0 {
                assert(t[j - 1] == s[j]);
            }
        }
    }
}

/// A text with a character that is no digit, anywhere but at the first point, is not an amount.
pub proof fn lemma_stray_character(s: Seq<char>, k: int)
    requires
        0 <= k < s.len(),
        !is_digit(s[k]),
        k != first_dot(s),
    ensures
        !well_formed(s),
{
    lemma_first_dot_bounds(s);
    let d = first_dot(s);
    if k < d {
        assert(whole_part(s)[k] == s[k]);
    } else {
        assert(k > d);
        assert(fraction_part(s)[k - d - 1] == s[k]);
    }
}

/// A string of zeros denotes zero.
proof fn lemma_zeros_value(z: Seq<char>)
    requires
        forall|i: int| 0 <= i < z.len() ==> z[i] == '0',
    ensures
        decimal_value(z) == 0,
    decreases z.len(),
{
    if z.len() > 0 {
        lemma_zeros_value(z.drop_last());
    }
}

/// Writing the whole part, the fraction and the missing decimal places as
/// zeros in one row gives the number of base units.
proof fn lemma_row_value(w: Seq<char>, f: Seq<char>, z: Seq<char>)
    requires
        forall|i: int| 0 <= i < z.len() ==> z[i] == '0',
    ensures
        decimal_value(w + f + z) == decimal_value(w) * pow10(f.len() + z.len()) + decimal_value(f)
            * pow10(z.len()),
{
    lemma_decimal_value_concat(w + f, z);
    lemma_decimal_value_concat(w, f);
    lemma_zeros_value(z);
    lemma_pow10_add(f.len(), z.len());
    let a = decimal_value(w) as int;
    let b = decimal_value(f) as int;
    let pf = pow10(f.len()) as int;
    let pz = pow10(z.len()) as int;
    assert((a * pf + b) * pz == a * (pf * pz) + b * pz) by (nonlinear_arith);
}

/// Reading back the text of an amount gives the amount: for every value and
/// every precision, `parse(to_string(x), precision) == x`.
pub proof fn lemma_amount_round_trip(x: ContractAmount)
    ensures
        parse_spec(amount_text(x.value as nat, x.precision as nat), x.precision) == Ok::<
            ContractAmount,
            AmountError,
        >(x),
{
    let v = x.value as nat;
    let p = x.precision as nat;
    let s = amount_text(v, p);
    if p == 0 {
        lemma_decimal_text_digits(v);
        lemma_decimal_text_value(v);
        assert forall|j: int| 0 <= j < s.len() implies s[j] != '.' by {
            assert(is_digit(s[j]));
        }
        lemma_first_dot_is(s, s.len() as int);
        assert(whole_part(s) =~= s);
        assert(fraction_part(s) =~= Seq::<char>::empty());
        assert(pow10(0) == 1);
        assert(decimal_value(whole_part(s)) == v);
        assert(decimal_value(fraction_part(s)) == 0);
        assert(text_value(s, 0) == v * 1 + 0 * 1);
    } else {
        let w = decimal_text(v / pow10(p));
        let f = fixed_text(v, p);
        lemma_decimal_text_digits(v / pow10(p));
        lemma_decimal_text_value(v / pow10(p));
        lemma_fixed_text_digits(v, p);
        lemma_fixed_text_value(v, p);
        lemma_pow10_positive(p);
        assert forall|j: int| 0 <= j < w.len() implies s[j] != '.' by {
            assert(s[j] == w[j]);
            assert(is_digit(w[j]));
        }
        assert(s[w.len() as int] == '.');
        lemma_first_dot_is(s, w.len() as int);
        assert(whole_part(s) =~= w);
        assert(fraction_part(s) =~= f);
        assert(pow10(0) == 1);
        let unit = pow10(p);
        assert(decimal_value(whole_part(s)) == v / unit);
        assert(decimal_value(fraction_part(s)) == v % unit);
        assert((p - fraction_part(s).len()) as nat == 0);
        assert(text_value(s, p) == (v / unit) * unit + (v % unit) * 1);
        lemma_fundamental_div_mod(v as int, unit as int);
        lemma_mul_is_commutative((v / unit) as int, unit as int);
        assert(text_value(s, p) == v);
    }
}

/// Whether `bytes` holds the characters of `text`, one byte for each.
pub open spec fn spells(bytes: Seq<u8>, text: Seq<char>) -> bool {
    &&& bytes.len() == text.len()
    &&& forall|i: int| 0 <= i < text.len() ==> (#[trigger] bytes[i]) as int == text[i] as int
}

/// The bytes of `s` if it is plain ASCII: one byte for each character.
fn ascii_bytes(s: &str) -> (r: Option<Vec<u8>>)
    ensures
        r is Some <==> is_ascii(s),
        r matches Some(b) ==> spells(b@, s@),
{
    if !s.is_ascii() {
        return None;
    }
    let b = s.as_bytes_vec();
    proof {
        is_ascii_spec_bytes(s);
        assert forall|i: int| 0 <= i < s@.len() implies (#[trigger] b@[i]) as int == s@[i] as int by {
            assert('\0' <= s@[i] <= '\u{7f}');
        }
    }
    Some(b)
}

/// Reads a row of digit bytes as a number, or reports that it exceeds 64 bits.
fn read_digits(digits: &Vec<u8>, Ghost(text): Ghost<Seq<char>>) -> (r: Option<u64>)
    requires
        spells(digits@, text),
        all_digits(text),
    ensures
        r matches Some(v) ==> v == decimal_value(text),
        r is None <==> decimal_value(text) > u64::MAX,
{
    let mut acc: u64 = 0;
    let mut i: usize = 0;
    while i < digits.len()
        invariant
            i <= digits.len(),
            spells(digits@, text),
            all_digits(text),
            acc == decimal_value(text.subrange(0, i as int)),
        decreases digits.len() - i,
    {
        assert(is_digit(text[i as int]));
        let d: u8 = digits[i] - 48;
        let ghost prefix = text.subrange(0, i as int + 1);
        proof {
            assert(prefix.drop_last() =~= text.subrange(0, i as int));
            assert(prefix.last() == text[i as int]);
            assert(d as nat == digit_of(text[i as int]));
            assert(text =~= prefix + text.subrange(i as int + 1, text.len() as int));
            lemma_decimal_value_grows(prefix, text.subrange(i as int + 1, text.len() as int));
        }
        let next = match acc.checked_mul(10) {
            Some(m) => m.checked_add(d as u64),
            None => None,
        };
        match next {
            Some(n) => {
                acc = n;
            },
            None => {
                return None;
            },
        }
        i += 1;
    }
    assert(text.subrange(0, i as int) =~= text);
    Some(acc)
}

/// Ten to the power `n`, or nothing where that exceeds 64 bits.
fn checked_pow10(n: u8) -> (r: Option<u64>)
    ensures
        r matches Some(v) ==> v == pow10(n as nat),
        r is None <==> pow10(n as nat) > u64::MAX,
{
    let mut acc: u64 = 1;
    let mut i: u8 = 0;
    while i < n
        invariant
            i <= n,
            acc == pow10(i as nat),
        decreases n - i,
    {
        proof {
            lemma_pow10_monotonic((i + 1) as nat, n as nat);
        }
        match acc.checked_mul(10) {
            Some(m) => {
                acc = m;
            },
            None => {
                return None;
            },
        }
        i += 1;
    }
    Some(acc)
}

impl ContractAmount {
    /// An amount of `value` base units at `precision` decimal places.
    pub fn new(value: u64, precision: u8) -> (r: ContractAmount)
        ensures
            r == (ContractAmount { value, precision }),
    {
        ContractAmount { value, precision }
    }

    /// An amount given as whole units and a fractional part in base units:
    /// `whole * 10^precision + fraction` base units.
    pub fn with(whole: u64, fraction: u64, precision: u8) -> (r: Result<ContractAmount, AmountError>)
        ensures
            r == with_spec(whole, fraction, precision),
    {
        match checked_pow10(precision) {
            Some(unit) => {
                if fraction >= unit {
                    return Err(AmountError::PrecisionMismatch);
                }
                let value = match whole.checked_mul(unit) {
                    Some(m) => m.checked_add(fraction),
                    None => None,
                };
                match value {
                    Some(v) => Ok(ContractAmount { value: v, precision }),
                    None => Err(AmountError::Overflow),
                }
            },
            None => {
                if whole == 0 {
                    assert(whole * pow10(precision as nat) == 0) by (nonlinear_arith)
                        requires
                            whole == 0,
                    ;
                    Ok(ContractAmount { value: fraction, precision })
                } else {
                    assert(whole * pow10(precision as nat) >= pow10(precision as nat))
                        by (nonlinear_arith)
                        requires
                            whole >= 1,
                    ;
                    Err(AmountError::Overflow)
                }
            },
        }
    }

    /// The number of base units.
    pub fn to_value(&self) -> (v: u64)
        ensures
            v == self.value,
    {
        self.value
    }

    /// The number of decimal places.
    pub fn precision(&self) -> (p: u8)
        ensures
            p == self.precision,
    {
        self.precision
    }

    /// The whole units of the amount: the value divided by `10^precision`, rounded down.
    pub fn whole_units(&self) -> (w: u64)
        ensures
            w == self.value as nat / pow10(self.precision as nat),
    {
        let mut whole: u64 = self.value;
        let mut i: u8 = 0;
        assert(pow10(0) == 1);
        while i < self.precision
            invariant
                i <= self.precision,
                whole == self.value as nat / pow10(i as nat),
            decreases self.precision - i,
        {
            proof {
                lemma_pow10_positive(i as nat);
                lemma_div_denominator(self.value as int, pow10(i as nat) as int, 10);
                lemma_mul_is_commutative(pow10(i as nat) as int, 10);
            }
            whole = whole / 10;
            i += 1;
        }
        whole
    }

    /// The amount as text: whole units, a point, and `precision` decimal places.
    pub fn to_string(&self) -> (s: String)
        ensures
            s@ == amount_text(self.value as nat, self.precision as nat),
    {
        let whole = self.whole_units();
        let mut s = format_decimal(whole);
        if self.precision == 0 {
            assert(pow10(self.precision as nat) == 1);
            assert(self.value as nat / 1 == self.value as nat);
        } else {
            proof {
                reveal_strlit(".");
            }
            s.append(".");
            let f = format_fixed(self.value, self.precision);
            s.append(f.as_str());
            assert(s@ =~= amount_text(self.value as nat, self.precision as nat));
        }
        s
    }

    /// Reads an amount written in decimal at the given precision.
    ///
    /// The text is digits, optionally followed by a point and more digits. It
    /// may have fewer decimal places than the precision, never more.
    pub fn parse(s: &str, precision: u8) -> (r: Result<ContractAmount, AmountError>)
        ensures
            r == parse_spec(s@, precision),
    {
        let bytes = match ascii_bytes(s) {
            Some(b) => b,
            None => {
                proof {
                    let k = choose|k: int| 0 <= k < s@.len() && !('\0' <= #[trigger] s@[k] <= '\u{7f}');
                    lemma_first_dot_bounds(s@);
                    lemma_stray_character(s@, k);
                }
                return Err(AmountError::Malformed);
            },
        };
        let n = bytes.len();
        let mut dot: usize = 0;
        while dot < n && bytes[dot] != 46
            invariant
                dot <= n,
                n == bytes@.len(),
                spells(bytes@, s@),
                forall|j: int| 0 <= j < dot ==> s@[j] != '.',
            decreases n - dot,
        {
            assert(bytes@[dot as int] as int == s@[dot as int] as int);
            dot += 1;
        }
        proof {
            if dot < n {
                assert(bytes@[dot as int] as int == s@[dot as int] as int);
            }
        }
        proof {
            lemma_first_dot_is(s@, dot as int);
        }
        let ghost whole = whole_part(s@);
        let ghost fraction = fraction_part(s@);
        if dot == 0 || n - dot == 1 {
            return Err(AmountError::Malformed);
        }
        let mut digits: Vec<u8> = Vec::new();
        let ghost mut row: Seq<char> = Seq::empty();
        let mut i: usize = 0;
        while i < n
            invariant
                i <= n,
                0 < dot <= n,
                n == bytes@.len(),
                spells(bytes@, s@),
                first_dot(s@) == dot,
                spells(digits@, row),
                all_digits(row),
                i <= dot ==> row =~= s@.subrange(0, i as int),
                i > dot ==> row =~= s@.subrange(0, dot as int) + s@.subrange(
                    dot as int + 1,
                    i as int,
                ),
            decreases n - i,
        {
            if i != dot {
                let b = bytes[i];
                assert(bytes@[i as int] as int == s@[i as int] as int);
                if b < 48 || b > 57 {
                    proof {
                        lemma_stray_character(s@, i as int);
                    }
                    return Err(AmountError::Malformed);
                }
                let ghost before = row;
                digits.push(b);
                proof {
                    row = row.push(s@[i as int]);
                    assert forall|k: int| 0 <= k < row.len() implies (#[trigger] digits@[k]) as int
                        == row[k] as int by {
                        if k < before.len() {
                            assert(row[k] == before[k]);
                        }
                    }
                    assert forall|k: int| 0 <= k < row.len() implies is_digit(#[trigger] row[k]) by {
                        if k < before.len() {
                            assert(row[k] == before[k]);
                        }
                    }
                }
            }
            i += 1;
        }
        let places: usize = if dot < n {
            n - dot - 1
        } else {
            0
        };
        proof {
            if dot < n {
                assert(row =~= whole + fraction);
            } else {
                assert(fraction =~= Seq::<char>::empty());
                assert(row =~= whole + fraction);
            }
            assert(whole =~= row.subrange(0, dot as int));
            assert(fraction =~= row.subrange(dot as int, row.len() as int));
            assert(all_digits(whole));
            assert(all_digits(fraction));
            assert(well_formed(s@));
            assert(places == fraction.len());
        }
        if places > precision as usize {
            return Err(AmountError::PrecisionMismatch);
        }
        let ghost mut zeros: Seq<char> = Seq::empty();
        let mut k: usize = places;
        while k < precision as usize
            invariant
                places <= k <= precision,
                zeros.len() == k - places,
                forall|j: int| 0 <= j < zeros.len() ==> zeros[j] == '0',
                spells(digits@, row + zeros),
                all_digits(row + zeros),
            decreases precision - k,
        {
            let ghost before = row + zeros;
            digits.push(48);
            proof {
                zeros = zeros.push('0');
                assert(row + zeros =~= before.push('0'));
                assert forall|j: int| 0 <= j < (row + zeros).len() implies (#[trigger] digits@[j]) as int
                    == (row + zeros)[j] as int by {
                    if j < before.len() {
                        assert((row + zeros)[j] == before[j]);
                    }
                }
                assert forall|j: int| 0 <= j < (row + zeros).len() implies is_digit(
                    #[trigger] (row + zeros)[j],
                ) by {
                    if j < before.len() {
                        assert((row + zeros)[j] == before[j]);
                    }
                }
            }
            k += 1;
        }
        proof {
            assert(row + zeros =~= whole + fraction + zeros);
            lemma_row_value(whole, fraction, zeros);
            assert(fraction.len() + zeros.len() == precision);
        }
        match read_digits(&digits, Ghost(row + zeros)) {
            Some(v) => Ok(ContractAmount { value: v, precision }),
            None => Err(AmountError::Overflow),
        }
    }

    /// Whether the amount is zero.
    pub fn is_zero(&self) -> (z: bool)
        ensures
            z == (self.value == 0),
    {
        self.value == 0
    }

    /// The sum of two amounts of one precision.
    pub fn checked_add(&self, other: &ContractAmount) -> (r: Result<ContractAmount, AmountError>)
        ensures
            self.precision != other.precision ==> r == Err::<ContractAmount, AmountError>(
                AmountError::PrecisionMismatch,
            ),
            self.precision == other.precision && self.value + other.value > u64::MAX ==> r == Err::<
                ContractAmount,
                AmountError,
            >(AmountError::Overflow),
            self.precision == other.precision && self.value + other.value <= u64::MAX ==> r == Ok::<
                ContractAmount,
                AmountError,
            >(
                ContractAmount {
                    value: (self.value + other.value) as u64,
                    precision: self.precision,
                },
            ),
    {
        if self.precision != other.precision {
            return Err(AmountError::PrecisionMismatch);
        }
        match self.value.checked_add(other.value) {
            Some(v) => Ok(ContractAmount { value: v, precision: self.precision }),
            None => Err(AmountError::Overflow),
        }
    }

    /// The difference of two amounts of one precision.
    pub fn checked_sub(&self, other: &ContractAmount) -> (r: Result<ContractAmount, AmountError>)
        ensures
            self.precision != other.precision ==> r == Err::<ContractAmount, AmountError>(
                AmountError::PrecisionMismatch,
            ),
            self.precision == other.precision && self.value < other.value ==> r == Err::<
                ContractAmount,
                AmountError,
            >(AmountError::Underflow),
            self.precision == other.precision && self.value >= other.value ==> r == Ok::<
                ContractAmount,
                AmountError,
            >(
                ContractAmount {
                    value: (self.value - other.value) as u64,
                    precision: self.precision,
                },
            ),
    {
        if self.precision != other.precision {
            return Err(AmountError::PrecisionMismatch);
        }
        if self.value < other.value {
            return Err(AmountError::Underflow);
        }
        Ok(ContractAmount { value: self.value - other.value, precision: self.precision })
    }

    /// The same quantity at another precision.
    ///
    /// Going to more decimal places multiplies the value and may overflow;
    /// going to fewer succeeds only where nothing is lost.
    pub fn rescale(&self, precision: u8) -> (r: Result<ContractAmount, AmountError>)
        ensures
            r == rescale_spec(*self, precision),
    {
        if precision >= self.precision {
            let gap: u8 = precision - self.precision;
            match checked_pow10(gap) {
                Some(unit) => match self.value.checked_mul(unit) {
                    Some(v) => Ok(ContractAmount { value: v, precision }),
                    None => Err(AmountError::Overflow),
                },
                None => {
                    if self.value == 0 {
                        assert(self.value * pow10(gap as nat) == 0) by (nonlinear_arith)
                            requires
                                self.value == 0,
                        ;
                        Ok(ContractAmount { value: 0, precision })
                    } else {
                        assert(self.value * pow10(gap as nat) >= pow10(gap as nat))
                            by (nonlinear_arith)
                            requires
                                self.value >= 1,
                        ;
                        Err(AmountError::Overflow)
                    }
                },
            }
        } else {
            let gap: u8 = self.precision - precision;
            match checked_pow10(gap) {
                Some(unit) => {
                    proof {
                        lemma_pow10_positive(gap as nat);
                    }
                    if self.value % unit != 0 {
                        Err(AmountError::PrecisionMismatch)
                    } else {
                        Ok(ContractAmount { value: self.value / unit, precision })
                    }
                },
                None => {
                    proof {
                        lemma_small_mod_and_div(self.value as nat, pow10(gap as nat));
                    }
                    if self.value != 0 {
                        Err(AmountError::PrecisionMismatch)
                    } else {
                        Ok(ContractAmount { value: 0, precision })
                    }
                },
            }
        }
    }
}

/// A number below the divisor is its own remainder, with quotient zero.
proof fn lemma_small_mod_and_div(x: nat, d: nat)
    requires
        x < d,
    ensures
        x % d == x,
        x / d == 0,
{
    lemma_small_mod(x, d);
    lemma_basic_div(x as int, d as int);
}

} // verus!
