use vstd::prelude::*;

use crate::text::{ascii_chars, ascii_to_string, is_ascii};

verus! {

/// The lowercase hex digit for `n` (`0 <= n < 16`), as an ASCII byte.
pub open spec fn hex_digit(n: int) -> u8 {
    if n < 10 {
        (48 + n) as u8
    } else {
        (87 + n) as u8
    }
}

/// The lowercase hex encoding of `b`, as ASCII bytes: two digits per byte,
/// the high nibble first.
pub open spec fn hex_ascii(b: Seq<u8>) -> Seq<u8> {
    Seq::new(
        2 * b.len(),
        |i: int|
            if i % 2 == 0 {
                hex_digit(b[i / 2] as int / 16)
            } else {
                hex_digit(b[i / 2] as int % 16)
            },
    )
}

/// Whether `c` is a hex digit, in either case.
pub open spec fn is_hex(c: u8) -> bool {
    (48 <= c <= 57) || (97 <= c <= 102) || (65 <= c <= 70)
}

/// The value of the hex digit `c`.
pub open spec fn hex_value(c: u8) -> int {
    if 48 <= c <= 57 {
        c - 48
    } else if 97 <= c <= 102 {
        c - 87
    } else {
        c - 55
    }
}

/// The bytes that the hex digits `h` spell; an odd length reads as if a
/// `'0'` followed.
pub open spec fn unhex(h: Seq<u8>) -> Seq<u8> {
    Seq::new(
        ((h.len() + 1) / 2) as nat,
        |i: int|
            (16 * hex_value(h[2 * i]) + if 2 * i + 1 < h.len() {
                hex_value(h[2 * i + 1])
            } else {
                0
            }) as u8,
    )
}

/// The position of the first byte of `h` that is not a hex digit.
pub open spec fn first_non_hex(h: Seq<u8>, k: int) -> bool {
    0 <= k < h.len() && !is_hex(h[k]) && forall|j: int| 0 <= j < k ==> #[trigger] is_hex(h[j])
}

/// A hex string held a byte that is not a hex digit: the first such byte.
#[derive(Copy, Clone, Debug, PartialEq, Eq, Structural)]
pub struct InvalidHex(pub u8);

/// Name of a vertex in the graph: an opaque string of bytes, such as a
/// binary commit hash.
#[derive(Clone, Debug, PartialEq, Eq, PartialOrd, Ord, Hash)]
pub struct VertexName(pub Vec<u8>);

impl View for VertexName {
    type V = Seq<u8>;

    open spec fn view(&self) -> Seq<u8> {
        self.0@
    }
}

/// The hex digit for `n`, which must be below 16.
fn hex_digit_exec(n: u8) -> (r: u8)
    requires
        n < 16,
    ensures
        r == hex_digit(n as int),
        r < 128,
{
    if n < 10 {
        48 + n
    } else {
        87 + n
    }
}

/// The value of `c` if it is a hex digit.
fn hex_value_exec(c: u8) -> (r: Option<u8>)
    ensures
        is_hex(c) <==> r.is_some(),
        r matches Some(v) ==> v == hex_value(c) && v < 16,
{
    if 48 <= c && c <= 57 {
        Some(c - 48)
    } else if 97 <= c && c <= 102 {
        Some(c - 87)
    } else if 65 <= c && c <= 70 {
        Some(c - 55)
    } else {
        None
    }
}

/// The hex encoding of `b` as ASCII bytes.
fn hex_bytes(b: &Vec<u8>) -> (r: Vec<u8>)
    requires
        b@.len() <= usize::MAX / 2,
    ensures
        r@ == hex_ascii(b@),
        is_ascii(r@),
{
    let mut v: Vec<u8> = Vec::new();
    let mut k: usize = 0;
    while k < b.len()
        invariant
            k <= b@.len() <= usize::MAX / 2,
            v@ =~= hex_ascii(b@.take(k as int)),
            is_ascii(v@),
        decreases b@.len() - k,
    {
        let byte = b[k];
        v.push(hex_digit_exec(byte / 16));
        v.push(hex_digit_exec(byte % 16));
        proof {
            let t = b@.take(k + 1);
            assert(v@ =~= hex_ascii(t)) by {
                assert forall|i: int| 0 <= i < 2 * k implies v@[i] == #[trigger] hex_ascii(t)[i] by {
                    assert(t[i / 2] == b@.take(k as int)[i / 2]);
                }
            }
        }
        k += 1;
    }
    proof {
        assert(b@.take(k as int) =~= b@);
    }
    v
}

impl VertexName {
    /// The lowercase hex encoding of this name, two digits per byte.
    pub fn to_hex(&self) -> (r: String)
        requires
            self@.len() <= usize::MAX / 2,
        ensures
            r@ == ascii_chars(hex_ascii(self@)),
    {
        ascii_to_string(hex_bytes(&self.0))
    }

    /// Decode hex digits, in either case. An odd length reads as if a `'0'`
    /// followed. The first byte that is not a hex digit is an error.
    pub fn from_hex(hex: &[u8]) -> (r: Result<VertexName, InvalidHex>)
        ensures
            (forall|j: int| 0 <= j < hex@.len() ==> #[trigger] is_hex(hex@[j])) <==> r.is_ok(),
            r matches Ok(v) ==> v@ == unhex(hex@),
            r matches Err(e) ==> exists|k: int| first_non_hex(hex@, k) && hex@[k] == e.0,
    {
        let n = hex.len();
        let mut bytes: Vec<u8> = Vec::new();
        let mut k: usize = 0;
        while k < n
            invariant
                n == hex@.len(),
                k <= n,
                forall|j: int| 0 <= j < k ==> #[trigger] is_hex(hex@[j]),
                bytes@.len() == (k + 1) / 2,
                forall|i: int|
                    0 <= i < k / 2 ==> #[trigger] bytes@[i] == unhex(hex@)[i],
                k % 2 == 1 ==> bytes@[(k / 2) as int] == 16 * hex_value(hex@[k - 1]),
            decreases n - k,
        {
            let c = hex[k];
            match hex_value_exec(c) {
                None => {
                    proof {
                        assert(first_non_hex(hex@, k as int));
                    }
                    return Err(InvalidHex(c));
                },
                Some(value) => {
                    if k % 2 == 0 {
                        bytes.push(value * 16);
                    } else {
                        let hi = bytes[k / 2];
                        bytes.set(k / 2, hi + value);
                    }
                },
            }
            k += 1;
        }
        proof {
            assert(bytes@ =~= unhex(hex@)) by {
                assert forall|i: int| 0 <= i < bytes@.len() implies bytes@[i] == #[trigger] unhex(
                    hex@,
                )[i] by {
                    if i >= k / 2 {
                        assert(k % 2 == 1);
                    }
                }
            }
        }
        Ok(VertexName(bytes))
    }

    /// A name holding a copy of `value`.
    pub fn copy_from(value: &[u8]) -> (r: VertexName)
        ensures
            r@ == value@,
    {
        let mut v: Vec<u8> = Vec::new();
        crate::text::push_bytes(&mut v, value);
        VertexName(v)
    }

    /// Show the name: in hex when it has two bytes or more, cut to
    /// `precision` digits when given; a shorter name as its text when it is
    /// valid UTF-8 (here: ASCII), else in hex.
    pub fn to_debug_string(&self, precision: Option<usize>) -> (r: String)
        requires
            self@.len() <= usize::MAX / 2,
        ensures
            r@ == ascii_chars(
                if self@.len() >= 2 {
                    match precision {
                        Some(p) => if p < 2 * self@.len() {
                            hex_ascii(self@).take(p as int)
                        } else {
                            hex_ascii(self@)
                        },
                        None => hex_ascii(self@),
                    }
                } else if is_ascii(self@) {
                    self@
                } else {
                    hex_ascii(self@)
                },
            ),
    {
        let n = self.0.len();
        if n >= 2 {
            let hex = hex_bytes(&self.0);
            match precision {
                Some(p) => {
                    if p < hex.len() {
                        let mut cut: Vec<u8> = Vec::new();
                        crate::text::push_prefix(&mut cut, hex.as_slice(), p);
                        assert(cut@ =~= hex_ascii(self@).take(p as int));
                        return ascii_to_string(cut);
                    }
                    ascii_to_string(hex)
                },
                None => ascii_to_string(hex),
            }
        } else if n == 0 || self.0[0] < 128 {
            let mut v: Vec<u8> = Vec::new();
            crate::text::push_bytes(&mut v, self.0.as_slice());
            ascii_to_string(v)
        } else {
            ascii_to_string(hex_bytes(&self.0))
        }
    }
}

} // verus!
