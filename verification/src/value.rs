use vstd::prelude::*;
use vstd::std_specs::iter::IteratorSpec;

verus! {

broadcast use vstd::string::axiom_spec_iter, vstd::string::next_postcondition;

/// True when `bits`, read as an IEEE 754 double, is finite (neither an
/// infinity nor a NaN): the exponent field is not all ones.
pub open spec fn spec_finite_bits(bits: u64) -> bool {
    (bits >> 52) & 0x7ff != 0x7ff
}

/// The number collaborator, modelled by the three representations the
/// archival layer distinguishes: a signed 64-bit whole number, an unsigned
/// 64-bit whole number, or a double given by its IEEE 754 bit pattern.
///
/// The normal form keeps every whole number that fits the signed range in
/// `Signed`; `Unsigned` is reserved for values above `i64::MAX`.
#[derive(Clone, Copy, Debug, PartialEq, Eq, Structural)]
pub enum INumber {
    Signed(i64),
    Unsigned(u64),
    Float(u64),
}

impl INumber {
    /// Well-formed numbers are in normal form and hold only finite doubles.
    pub open spec fn wf(self) -> bool {
        match self {
            INumber::Signed(_) => true,
            INumber::Unsigned(u) => u > i64::MAX as u64,
            INumber::Float(bits) => spec_finite_bits(bits),
        }
    }

    /// True unless this number is a non-finite double.
    pub open spec fn float_finite(self) -> bool {
        match self {
            INumber::Float(bits) => spec_finite_bits(bits),
            _ => true,
        }
    }

    /// The normal form: whole numbers representable as signed 64-bit are
    /// always `Signed`.
    pub open spec fn normal(self) -> INumber {
        match self {
            INumber::Unsigned(u) => if u <= i64::MAX as u64 {
                INumber::Signed(u as i64)
            } else {
                self
            },
            _ => self,
        }
    }

    /// Construct from an unsigned 64-bit whole number, normalizing.
    pub fn from_u64(u: u64) -> (r: INumber)
        ensures
            r == INumber::Unsigned(u).normal(),
            r.wf(),
    {
        if u <= i64::MAX as u64 {
            INumber::Signed(u as i64)
        } else {
            INumber::Unsigned(u)
        }
    }

    /// Construct from a signed 64-bit whole number.
    pub fn from_i64(i: i64) -> (r: INumber)
        ensures
            r == INumber::Signed(i),
            r.wf(),
    {
        INumber::Signed(i)
    }

    /// Fallible construction from a double's bit pattern: non-finite values
    /// are rejected, mirroring the collaborator's float policy.
    pub fn from_f64_bits(bits: u64) -> (r: Option<INumber>)
        ensures
            spec_finite_bits(bits) ==> r == Some(INumber::Float(bits)),
            !spec_finite_bits(bits) ==> r is None,
    {
        if (bits >> 52) & 0x7ff != 0x7ff {
            Some(INumber::Float(bits))
        } else {
            None
        }
    }

    /// True when the number carries a fractional (double) representation.
    pub fn has_decimal_point(&self) -> (r: bool)
        ensures
            r == (*self is Float),
    {
        match self {
            INumber::Float(_) => true,
            _ => false,
        }
    }

    /// The value as a signed 64-bit integer, when it is a whole number in
    /// the signed range.
    pub fn to_i64(&self) -> (r: Option<i64>)
        ensures
            match *self {
                INumber::Signed(i) => r == Some(i),
                INumber::Unsigned(u) => r == if u <= i64::MAX as u64 {
                    Some(u as i64)
                } else {
                    None::<i64>
                },
                INumber::Float(_) => r is None,
            },
    {
        match self {
            INumber::Signed(i) => Some(*i),
            INumber::Unsigned(u) => if *u <= i64::MAX as u64 {
                Some(*u as i64)
            } else {
                None
            },
            INumber::Float(_) => None,
        }
    }

    /// The value as an unsigned 64-bit integer, when it is a non-negative
    /// whole number.
    pub fn to_u64(&self) -> (r: Option<u64>)
        ensures
            match *self {
                INumber::Signed(i) => r == if i >= 0 {
                    Some(i as u64)
                } else {
                    None::<u64>
                },
                INumber::Unsigned(u) => r == Some(u),
                INumber::Float(_) => r is None,
            },
    {
        match self {
            INumber::Signed(i) => if *i >= 0 {
                Some(*i as u64)
            } else {
                None
            },
            INumber::Unsigned(u) => Some(*u),
            INumber::Float(_) => None,
        }
    }

    /// The double's bit pattern, when the number carries one.
    pub fn to_f64_bits(&self) -> (r: Option<u64>)
        ensures
            match *self {
                INumber::Float(bits) => r == Some(bits),
                _ => r is None,
            },
    {
        match self {
            INumber::Float(bits) => Some(*bits),
            _ => None,
        }
    }
}

/// The string collaborator: an owned text value, viewed as its character
/// sequence.
#[derive(Debug)]
pub struct IString(String);

impl View for IString {
    type V = Seq<char>;

    closed spec fn view(&self) -> Seq<char> {
        self.0@
    }
}

impl IString {
    /// Take ownership of `s` as the string value.
    pub fn from(s: String) -> (r: IString)
        ensures
            r@ == s@,
    {
        IString(s)
    }

    /// Borrow the text.
    pub fn as_str(&self) -> (r: &str)
        ensures
            r@ == self@,
    {
        self.0.as_str()
    }

    /// An owned copy of the text.
    pub fn to_text(&self) -> (r: String)
        ensures
            r@ == self@,
    {
        self.0.clone()
    }
}

impl Clone for IString {
    fn clone(&self) -> (r: Self)
        ensures
            r == *self,
    {
        IString(self.0.clone())
    }
}

impl PartialEq for IString {
    fn eq(&self, other: &IString) -> bool {
        self.0 == other.0
    }
}

impl vstd::std_specs::cmp::PartialEqSpecImpl for IString {
    open spec fn obeys_eq_spec() -> bool {
        true
    }

    open spec fn eq_spec(&self, other: &IString) -> bool {
        self@ == other@
    }
}

/// Strict lexicographic order on key text, by Unicode scalar value: the
/// canonical key order of the archive's object representation.  On UTF-8
/// encoded text it coincides with byte-wise lexicographic order.
pub open spec fn key_lt(a: Seq<char>, b: Seq<char>) -> bool
    decreases a.len(),
{
    if b.len() == 0 {
        false
    } else if a.len() == 0 {
        true
    } else if (a[0] as u32) < (b[0] as u32) {
        true
    } else if (b[0] as u32) < (a[0] as u32) {
        false
    } else {
        key_lt(a.drop_first(), b.drop_first())
    }
}

/// The key order is irreflexive.
pub proof fn lemma_key_lt_irreflexive(a: Seq<char>)
    ensures
        !key_lt(a, a),
    decreases a.len(),
{
    if a.len() > 0 {
        lemma_key_lt_irreflexive(a.drop_first());
    }
}

/// The key order is total: two texts are ordered one way or the other, or
/// they are equal, and never two of these at once.
pub proof fn lemma_key_lt_trichotomy(a: Seq<char>, b: Seq<char>)
    ensures
        key_lt(a, b) || key_lt(b, a) || a == b,
        key_lt(a, b) ==> !key_lt(b, a),
        key_lt(a, b) ==> a != b,
    decreases a.len(),
{
    if a.len() > 0 && b.len() > 0 {
        if (a[0] as u32) == (b[0] as u32) {
            vstd::utf8::char_u32_cast(a[0], a[0] as u32);
            vstd::utf8::char_u32_cast(b[0], b[0] as u32);
            assert(a[0] == b[0]);
            lemma_key_lt_trichotomy(a.drop_first(), b.drop_first());
            if a.drop_first() == b.drop_first() {
                assert forall|i: int| 0 <= i < a.len() implies a[i] == b[i] by {
                    if i > 0 {
                        assert(a[i] == a.drop_first()[i - 1]);
                        assert(b[i] == b.drop_first()[i - 1]);
                    }
                }
                assert(a =~= b);
            }
        }
    }
    if a == b {
        lemma_key_lt_irreflexive(a);
    }
}

/// The key order is transitive.
pub proof fn lemma_key_lt_transitive(a: Seq<char>, b: Seq<char>, c: Seq<char>)
    requires
        key_lt(a, b),
        key_lt(b, c),
    ensures
        key_lt(a, c),
    decreases a.len(),
{
    if a.len() > 0 && b.len() > 0 && c.len() > 0 {
        if (a[0] as u32) == (b[0] as u32) && (b[0] as u32) == (c[0] as u32) {
            lemma_key_lt_transitive(a.drop_first(), b.drop_first(), c.drop_first());
        }
    }
}

/// Executable test of the canonical key order on text.
pub fn key_lt_str(a: &str, b: &str) -> (r: bool)
    ensures
        r == key_lt(a@, b@),
{
    let mut ac = a.chars();
    let mut bc = b.chars();
    let ghost mut n: int = 0;
    loop
        invariant
            0 <= n <= a@.len(),
            n <= b@.len(),
            ac.remaining() == a@.skip(n),
            bc.remaining() == b@.skip(n),
            key_lt(a@, b@) == key_lt(a@.skip(n), b@.skip(n)),
        decreases a@.len() - n,
    {
        let ra = ac.next();
        let rb = bc.next();
        match (ra, rb) {
            (Some(x), Some(y)) => {
                if (x as u32) < (y as u32) {
                    return true;
                }
                if (y as u32) < (x as u32) {
                    return false;
                }
                proof {
                    vstd::utf8::char_u32_cast(x, x as u32);
                    vstd::utf8::char_u32_cast(y, y as u32);
                    assert(a@.skip(n).drop_first() =~= a@.skip(n + 1));
                    assert(b@.skip(n).drop_first() =~= b@.skip(n + 1));
                    n = n + 1;
                }
            },
            (None, None) => {
                return false;
            },
            (None, Some(_)) => {
                return true;
            },
            (Some(_), None) => {
                return false;
            },
        }
    }
}

} // verus!
