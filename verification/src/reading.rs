//! The data model of the telemetry pipeline: a Reading is an ordered
//! list of named numeric channels. Channel values are kept as decimal
//! digit text (sign, integer digits, fractional digits) so that the
//! wire round trip is exact; interpretation as a machine number is the
//! application layer's concern.

use vstd::prelude::*;
use crate::utf8::check_utf8;
use crate::utf8::utf8_from;

verus! {

/// Digit characters '0'..'9'.
pub open spec fn is_digit(b: u8) -> bool {
    0x30 <= b && b <= 0x39
}

/// Bytes a channel name may hold, in its stored (unescaped) form: any
/// non-control byte, plus the control characters that the wire's
/// escape sequences can carry (backspace, tab, line feed, form feed,
/// carriage return). The encoder escapes the quote, the backslash and
/// these controls, so the frame stays unambiguous and free of a bare
/// carriage return.
pub open spec fn name_char_ok(b: u8) -> bool {
    b >= 0x20 || b == 0x08 || b == 0x09 || b == 0x0A || b == 0x0C || b == 0x0D
}

/// Model of one channel value: a numeric literal as digit text —
/// sign, integer digits, fractional digits, and an optional exponent
/// (its sign and digits).
pub struct NumberModel {
    pub neg: bool,
    pub int_digits: Seq<u8>,
    pub frac_digits: Seq<u8>,
    pub exp_neg: bool,
    pub exp_digits: Seq<u8>,
}

pub open spec fn all_digits(s: Seq<u8>) -> bool {
    forall|i: int| 0 <= i < s.len() ==> is_digit(#[trigger] s[i])
}

/// Well-formed numeric literal: at least one integer digit, no leading
/// zero unless the integer part is exactly zero, digits throughout; an
/// empty fractional part means the literal has no fraction, and an
/// empty exponent part (which cannot carry a sign) means it has no
/// exponent.
pub open spec fn number_wf(n: NumberModel) -> bool {
    &&& n.int_digits.len() > 0
    &&& all_digits(n.int_digits)
    &&& (n.int_digits.len() > 1 ==> n.int_digits[0] != 0x30)
    &&& all_digits(n.frac_digits)
    &&& all_digits(n.exp_digits)
    &&& (n.exp_digits.len() == 0 ==> !n.exp_neg)
}

/// Model of one channel: its name bytes and its value.
pub struct ChannelModel {
    pub name: Seq<u8>,
    pub value: NumberModel,
}

/// Valid channel name: allowed bytes forming valid UTF-8 text.
pub open spec fn name_wf(s: Seq<u8>) -> bool {
    (forall|i: int| 0 <= i < s.len() ==> name_char_ok(#[trigger] s[i])) && utf8_from(s, 0)
}

pub open spec fn channel_wf(c: ChannelModel) -> bool {
    name_wf(c.name) && number_wf(c.value)
}

/// A reading is well formed when every channel is.
pub open spec fn reading_wf(r: Seq<ChannelModel>) -> bool {
    forall|i: int| 0 <= i < r.len() ==> channel_wf(#[trigger] r[i])
}

/// Decimal digit text of `n`, most significant digit first.
pub open spec fn dec_digits(n: nat) -> Seq<u8>
    decreases n,
{
    if n < 10 {
        seq![(0x30 + n) as u8]
    } else {
        proof {
            assert(n / 10 < n) by (nonlinear_arith)
                requires n >= 10,
            ;
        }
        dec_digits(n / 10).push((0x30 + n % 10) as u8)
    }
}

/// Digit text of a number is nonempty, all digits, and free of leading
/// zeros (for nonzero numbers).
pub proof fn lemma_dec_digits_wf(n: nat)
    ensures
        dec_digits(n).len() > 0,
        all_digits(dec_digits(n)),
        n >= 1 ==> dec_digits(n)[0] != 0x30,
        n == 0 ==> dec_digits(n) == seq![0x30u8],
    decreases n,
{
    if n < 10 {
        assert(dec_digits(n) =~= seq![(0x30 + n) as u8]);
    } else {
        assert(n / 10 >= 1 && n / 10 < n) by (nonlinear_arith)
            requires n >= 10,
        ;
        lemma_dec_digits_wf(n / 10);
        assert(n % 10 < 10) by (nonlinear_arith);
    }
}

/// One channel value, held as its digit text.
pub struct Number {
    neg: bool,
    int_digits: Vec<u8>,
    frac_digits: Vec<u8>,
    exp_neg: bool,
    exp_digits: Vec<u8>,
}

impl View for Number {
    type V = NumberModel;

    closed spec fn view(&self) -> NumberModel {
        NumberModel {
            neg: self.neg,
            int_digits: self.int_digits@,
            frac_digits: self.frac_digits@,
            exp_neg: self.exp_neg,
            exp_digits: self.exp_digits@,
        }
    }
}

/// Decide whether every byte of `v` is a decimal digit.
pub fn digits_ok(v: &[u8]) -> (r: bool)
    ensures
        r == all_digits(v@),
{
    let mut i: usize = 0;
    while i < v.len()
        invariant
            0 <= i <= v@.len(),
            forall|j: int| 0 <= j < i ==> is_digit(#[trigger] v@[j]),
        decreases v@.len() - i,
    {
        let b = v[i];
        if !(0x30 <= b && b <= 0x39) {
            assert(!is_digit(v@[i as int]));
            return false;
        }
        i += 1;
    }
    true
}

impl Number {
    /// Build a value from sign, digit text and exponent; rejects text
    /// that is not a well-formed numeric literal.
    pub fn from_parts(
        neg: bool,
        int_digits: Vec<u8>,
        frac_digits: Vec<u8>,
        exp_neg: bool,
        exp_digits: Vec<u8>,
    ) -> (r: Option<Number>)
        ensures
            ({
                let m = NumberModel {
                    neg,
                    int_digits: int_digits@,
                    frac_digits: frac_digits@,
                    exp_neg,
                    exp_digits: exp_digits@,
                };
                &&& (r is Some) == number_wf(m)
                &&& (r matches Some(n) ==> n@ == m)
            }),
    {
        if int_digits.len() == 0 {
            return None;
        }
        if !digits_ok(int_digits.as_slice()) || !digits_ok(frac_digits.as_slice())
            || !digits_ok(exp_digits.as_slice()) {
            return None;
        }
        if int_digits.len() > 1 && int_digits[0] == 0x30 {
            return None;
        }
        if exp_digits.len() == 0 && exp_neg {
            return None;
        }
        Some(Number { neg, int_digits, frac_digits, exp_neg, exp_digits })
    }

    /// The value of an unsigned integer sample, as emitted by the
    /// producer.
    pub fn from_u64(v: u64) -> (n: Number)
        ensures
            n@ == (NumberModel {
                neg: false,
                int_digits: dec_digits(v as nat),
                frac_digits: Seq::<u8>::empty(),
                exp_neg: false,
                exp_digits: Seq::<u8>::empty(),
            }),
            number_wf(n@),
    {
        let digits = dec_digits_exec(v);
        let empty: Vec<u8> = Vec::new();
        let empty2: Vec<u8> = Vec::new();
        proof {
            lemma_dec_digits_wf(v as nat);
            assert(Seq::<u8>::empty() =~= empty@);
            assert(Seq::<u8>::empty() =~= empty2@);
        }
        Number { neg: false, int_digits: digits, frac_digits: empty, exp_neg: false, exp_digits: empty2 }
    }

    /// Decide well-formedness of this value's digit text.
    pub fn wf_check(&self) -> (r: bool)
        ensures
            r == number_wf(self@),
    {
        if self.int_digits.len() == 0 {
            return false;
        }
        if !digits_ok(self.int_digits.as_slice()) || !digits_ok(self.frac_digits.as_slice())
            || !digits_ok(self.exp_digits.as_slice()) {
            return false;
        }
        if self.int_digits.len() > 1 && self.int_digits[0] == 0x30 {
            return false;
        }
        if self.exp_digits.len() == 0 && self.exp_neg {
            return false;
        }
        true
    }

    /// Assemble a value from parts already known to be digit text.
    pub(crate) fn from_raw_parts(
        neg: bool,
        int_digits: Vec<u8>,
        frac_digits: Vec<u8>,
        exp_neg: bool,
        exp_digits: Vec<u8>,
    ) -> (n: Number)
        ensures
            n@ == (NumberModel {
                neg,
                int_digits: int_digits@,
                frac_digits: frac_digits@,
                exp_neg,
                exp_digits: exp_digits@,
            }),
    {
        Number { neg, int_digits, frac_digits, exp_neg, exp_digits }
    }

    pub fn is_negative(&self) -> (r: bool)
        ensures
            r == self@.neg,
    {
        self.neg
    }

    pub fn int_digits(&self) -> (d: &Vec<u8>)
        ensures
            d@ == self@.int_digits,
    {
        &self.int_digits
    }

    pub fn frac_digits(&self) -> (d: &Vec<u8>)
        ensures
            d@ == self@.frac_digits,
    {
        &self.frac_digits
    }

    pub fn exp_is_negative(&self) -> (r: bool)
        ensures
            r == self@.exp_neg,
    {
        self.exp_neg
    }

    pub fn exp_digits(&self) -> (d: &Vec<u8>)
        ensures
            d@ == self@.exp_digits,
    {
        &self.exp_digits
    }
}

/// Decimal digit text of `v`, most significant first.
fn dec_digits_exec(v: u64) -> (d: Vec<u8>)
    ensures
        d@ == dec_digits(v as nat),
    decreases v,
{
    if v < 10 {
        let mut d: Vec<u8> = Vec::new();
        d.push(0x30 + (v as u8));
        proof {
            assert(d@ =~= dec_digits(v as nat));
        }
        d
    } else {
        assert(v / 10 < v) by (nonlinear_arith)
            requires v >= 10,
        ;
        let mut d = dec_digits_exec(v / 10);
        assert(v % 10 < 10) by (nonlinear_arith);
        d.push(0x30 + ((v % 10) as u8));
        proof {
            assert(d@ =~= dec_digits(v as nat));
        }
        d
    }
}

/// Byte-for-byte equality of two slices.
fn bytes_eq(a: &[u8], b: &[u8]) -> (r: bool)
    ensures
        r == (a@ == b@),
{
    if a.len() != b.len() {
        return false;
    }
    let mut i: usize = 0;
    while i < a.len()
        invariant
            0 <= i <= a@.len(),
            a@.len() == b@.len(),
            forall|j: int| 0 <= j < i ==> a@[j] == b@[j],
        decreases a@.len() - i,
    {
        if a[i] != b[i] {
            return false;
        }
        i += 1;
    }
    proof {
        assert(a@ =~= b@);
    }
    true
}

/// One named channel.
pub struct Channel {
    name: Vec<u8>,
    value: Number,
}

impl View for Channel {
    type V = ChannelModel;

    closed spec fn view(&self) -> ChannelModel {
        ChannelModel { name: self.name@, value: self.value@ }
    }
}

/// Decide whether `name` is a valid channel name.
pub fn name_ok(name: &[u8]) -> (r: bool)
    ensures
        r == name_wf(name@),
{
    let mut i: usize = 0;
    while i < name.len()
        invariant
            0 <= i <= name@.len(),
            forall|j: int| 0 <= j < i ==> name_char_ok(#[trigger] name@[j]),
        decreases name@.len() - i,
    {
        let b = name[i];
        if !(b >= 0x20 || b == 0x08 || b == 0x09 || b == 0x0A || b == 0x0C || b == 0x0D) {
            assert(!name_char_ok(name@[i as int]));
            return false;
        }
        i += 1;
    }
    check_utf8(name)
}

impl Channel {
    /// Pair a name with a value; rejects invalid names or malformed
    /// digit text.
    pub fn new(name: Vec<u8>, value: Number) -> (r: Option<Channel>)
        ensures
            ({
                let m = ChannelModel { name: name@, value: value@ };
                &&& (r is Some) == channel_wf(m)
                &&& (r matches Some(c) ==> c@ == m)
            }),
    {
        if !name_ok(name.as_slice()) {
            return None;
        }
        if !value.wf_check() {
            return None;
        }
        Some(Channel { name, value })
    }

    /// Assemble a channel from a name already known to be valid.
    pub(crate) fn from_raw(name: Vec<u8>, value: Number) -> (c: Channel)
        ensures
            c@ == (ChannelModel { name: name@, value: value@ }),
    {
        Channel { name, value }
    }

    pub fn name(&self) -> (n: &Vec<u8>)
        ensures
            n@ == self@.name,
    {
        &self.name
    }

    pub fn value(&self) -> (v: &Number)
        ensures
            v@ == self@.value,
    {
        &self.value
    }
}

/// An ordered set of decoded channels: the unit of telemetry handed to
/// the event bus.
pub struct Reading {
    channels: Vec<Channel>,
}

impl View for Reading {
    type V = Seq<ChannelModel>;

    closed spec fn view(&self) -> Seq<ChannelModel> {
        self.channels@.map_values(|c: Channel| c@)
    }
}

impl Reading {
    /// An empty reading, to be filled channel by channel.
    pub fn new() -> (r: Reading)
        ensures
            r@ == Seq::<ChannelModel>::empty(),
    {
        let r = Reading { channels: Vec::new() };
        proof {
            assert(r@ =~= Seq::<ChannelModel>::empty());
        }
        r
    }

    /// Wrap a decoded channel list.
    pub(crate) fn from_channels(channels: Vec<Channel>) -> (r: Reading)
        ensures
            r@ == channels@.map_values(|c: Channel| c@),
    {
        Reading { channels }
    }

    /// Append one channel; insertion order is kept.
    pub fn push(&mut self, c: Channel)
        ensures
            final(self)@ == old(self)@.push(c@),
    {
        let ghost prev = self.channels@;
        self.channels.push(c);
        proof {
            assert(self@ =~= prev.map_values(|ch: Channel| ch@).push(c@));
        }
    }

    pub fn len(&self) -> (n: usize)
        ensures
            n == self@.len(),
    {
        self.channels.len()
    }

    /// Look up the value of the channel named `name`, as a consumer
    /// with a fixed expected schema reads a decoded frame. When the
    /// name repeats, the last occurrence wins, as in a mapping filled
    /// by insertion.
    pub fn value_of(&self, name: &[u8]) -> (res: Option<&Number>)
        ensures
            res matches Some(v) ==> exists|i: int|
                0 <= i < self@.len() && (#[trigger] self@[i]).name == name@ && v@
                    == self@[i].value && forall|j: int| i < j < self@.len() ==> (#[trigger]
                self@[j]).name != name@,
            res is None ==> forall|i: int| 0 <= i < self@.len() ==> (#[trigger] self@[i]).name
                != name@,
    {
        let mut i: usize = self.channels.len();
        while i > 0
            invariant
                0 <= i <= self@.len(),
                forall|j: int| i <= j < self@.len() ==> (#[trigger] self@[j]).name != name@,
            decreases i,
        {
            i -= 1;
            let c = &self.channels[i];
            if bytes_eq(c.name.as_slice(), name) {
                proof {
                    let ghost w = i as int;
                    assert(self@[w].name == name@);
                }
                return Some(&c.value);
            }
            proof {
                assert(self@[i as int].name != name@);
            }
        }
        None
    }

    pub fn channel_at(&self, i: usize) -> (c: &Channel)
        requires
            i < self@.len(),
        ensures
            c@ == self@[i as int],
    {
        &self.channels[i]
    }
}

impl Default for Reading {
    /// The empty reading.
    fn default() -> (r: Self)
        ensures
            r@ == Seq::<ChannelModel>::empty(),
    {
        Reading::new()
    }
}

} // verus!
