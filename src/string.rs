//! A string as a sequence of characters, with conversions to and from
//! numbers and NUL-terminated byte strings.
use vstd::prelude::*;

verus! {

/// A sequence of characters.
pub struct String {
    data: Vec<char>,
}

impl View for String {
    type V = Seq<char>;

    closed spec fn view(&self) -> Seq<char> {
        self.data@
    }
}

/// Index of the first NUL in `b`, or its length.
pub open spec fn nul_index(b: Seq<u8>, i: int) -> int
    decreases b.len() - i,
{
    if i >= b.len() {
        b.len() as int
    } else if b[i] == 0 {
        i
    } else {
        nul_index(b, i + 1)
    }
}

/// The characters of the bytes of `b` before its first NUL, one per byte.
pub open spec fn c_chars(b: Seq<u8>) -> Seq<char> {
    b.take(nul_index(b, 0)).map_values(|c: u8| c as char)
}

/// The character of a digit: `0`-`9`, then `A` on.
pub open spec fn digit_char(d: nat) -> char {
    if d > 9 {
        (d + 55) as char
    } else {
        (d + 48) as char
    }
}

/// The value of a digit character in bases up to 36, if it is one.
pub open spec fn digit_value(c: char) -> Option<nat> {
    if '0' <= c && c <= '9' {
        Some((c as nat - 48) as nat)
    } else if 'A' <= c && c <= 'Z' {
        Some((c as nat - 55) as nat)
    } else if 'a' <= c && c <= 'z' {
        Some((c as nat - 87) as nat)
    } else {
        None
    }
}

/// `num` written in base `radix`, most significant digit first.
pub open spec fn numeral(num: nat, radix: nat) -> Seq<char>
    decreases num,
    when radix >= 2 || num < radix
    via numeral_decreases
{
    if num < radix {
        seq![digit_char(num)]
    } else {
        numeral(num / radix, radix).push(digit_char(num % radix))
    }
}

#[via_fn]
proof fn numeral_decreases(num: nat, radix: nat) {
    if num >= radix {
        vstd::arithmetic::div_mod::lemma_div_decreases(num as int, radix as int);
    }
}

/// Number of leading characters of `s` that are digits below `radix`.
pub open spec fn digit_run(s: Seq<char>, radix: usize, i: int) -> int
    decreases s.len() - i,
{
    if i >= s.len() {
        s.len() as int
    } else {
        match digit_value(s[i]) {
            Some(d) => if d < radix {
                digit_run(s, radix, i + 1)
            } else {
                i
            },
            None => i,
        }
    }
}

/// The value of the digits of `s` in base `radix`, in wrapping arithmetic.
pub open spec fn digits_wrapping(s: Seq<char>, radix: usize) -> usize
    decreases s.len(),
{
    if s.len() == 0 {
        0
    } else {
        let d = match digit_value(s.last()) {
            Some(d) => d,
            None => 0,
        };
        digits_wrapping(s.drop_last(), radix).wrapping_mul(radix).wrapping_add(d as usize)
    }
}

/// Digit character of `d`, as a byte to a character.
fn digit_to_char(d: usize) -> (c: char)
    requires
        d <= 200,
    ensures
        c == digit_char(d as nat),
{
    let b: u8 = if d > 9 {
        (d + 55) as u8
    } else {
        (d + 48) as u8
    };
    b as char
}

impl String {
    /// The empty string.
    pub fn new() -> (r: String)
        ensures
            r@ == Seq::<char>::empty(),
    {
        String { data: Vec::new() }
    }

    /// The characters of `s`.
    pub fn from_str(s: &str) -> (r: String)
        ensures
            r@ == s@,
    {
        let n = s.unicode_len();
        let mut data: Vec<char> = Vec::new();
        let mut i: usize = 0;
        while i < n
            invariant
                n == s@.len(),
                i <= n,
                data@ == s@.subrange(0, i as int),
            decreases n - i,
        {
            data.push(s.get_char(i));
            i = i + 1;
            assert(data@ =~= s@.subrange(0, i as int));
        }
        assert(data@ =~= s@);
        String { data }
    }

    /// The bytes of `s` before its first NUL (all of them when it has none),
    /// one character per byte.
    pub fn from_c_slice(s: &[u8]) -> (r: String)
        ensures
            r@ == c_chars(s@),
    {
        let mut data: Vec<char> = Vec::new();
        let mut i: usize = 0;
        while i < s.len() && s[i] != 0
            invariant
                i <= s@.len(),
                nul_index(s@, 0) == nul_index(s@, i as int),
                data@ == s@.take(i as int).map_values(|c: u8| c as char),
            decreases s@.len() - i,
        {
            data.push(s[i] as char);
            i = i + 1;
            assert(data@ =~= s@.take(i as int).map_values(|c: u8| c as char));
        }
        String { data }
    }

    /// The NUL-terminated string at the start of `s`.
    pub fn from_c_str(s: &[u8]) -> (r: String)
        requires
            s@.contains(0u8),
        ensures
            r@ == c_chars(s@),
    {
        String::from_c_slice(s)
    }

    /// `num` written in base `radix`, digits above 9 as `A` on (and past
    /// `Z` for bases over 36); empty for base 0. Base 1 only writes 0, and
    /// a digit must fit a byte once offset to `A`, so bases stop at 201.
    pub fn from_num_radix(num: usize, radix: usize) -> (r: String)
        requires
            radix <= 201,
            radix == 1 ==> num == 0,
        ensures
            radix == 0 ==> r@ == Seq::<char>::empty(),
            radix != 0 ==> r@ == numeral(num as nat, radix as nat),
    {
        if radix == 0 {
            return String::new();
        }
        let mut data: Vec<char> = Vec::new();
        push_digits(&mut data, num, radix);
        assert(data@ =~= numeral(num as nat, radix as nat));
        String { data }
    }

    /// The one-character string `c`; empty for NUL.
    pub fn from_char(c: char) -> (r: String)
        ensures
            r@ == if c == '\0' {
                Seq::<char>::empty()
            } else {
                seq![c]
            },
    {
        let mut data: Vec<char> = Vec::new();
        if c != '\0' {
            data.push(c);
        }
        assert(data@ =~= if c == '\0' {
            Seq::<char>::empty()
        } else {
            seq![c]
        });
        String { data }
    }

    /// `num` in decimal.
    pub fn from_num(num: usize) -> (r: String)
        ensures
            r@ == numeral(num as nat, 10),
    {
        String::from_num_radix(num, 10)
    }

    /// Character `i`, or NUL past the end.
    pub fn get(&self, i: usize) -> (c: char)
        ensures
            c == if i < self@.len() {
                self@[i as int]
            } else {
                '\0'
            },
    {
        if i < self.data.len() {
            self.data[i]
        } else {
            '\0'
        }
    }

    /// Up to `len` characters from `start`, both clipped to the string.
    pub fn substr(&self, start: usize, len: usize) -> (r: String)
        ensures
            ({
                let n = self@.len() as int;
                let i = if start <= n {
                    start as int
                } else {
                    n
                };
                let j = if i + len <= n {
                    i + len
                } else {
                    n
                };
                r@ == self@.subrange(i, j)
            }),
    {
        let n = self.data.len();
        let i = if start <= n {
            start
        } else {
            n
        };
        let j = if len <= n - i {
            i + len
        } else {
            n
        };
        let mut data: Vec<char> = Vec::new();
        let mut k = i;
        while k < j
            invariant
                i <= k <= j <= n,
                n == self@.len(),
                data@ == self@.subrange(i as int, k as int),
            decreases j - k,
        {
            data.push(self.data[k]);
            k = k + 1;
            assert(data@ =~= self@.subrange(i as int, k as int));
        }
        String { data }
    }

    /// A copy.
    pub fn clone(&self) -> (r: String)
        ensures
            r@ == self@,
    {
        let r = self.substr(0, self.len());
        assert(r@ =~= self@);
        r
    }

    /// Same characters.
    pub fn equals(&self, other: &String) -> (r: bool)
        ensures
            r == (self@ == other@),
    {
        if self.data.len() != other.data.len() {
            return false;
        }
        let mut i: usize = 0;
        while i < self.data.len()
            invariant
                self@.len() == other@.len(),
                i <= self@.len(),
                forall|k: int| 0 <= k < i ==> self@[k] == other@[k],
            decreases self@.len() - i,
        {
            if self.data[i] != other.data[i] {
                return false;
            }
            i = i + 1;
        }
        assert(self@ =~= other@);
        true
    }

    /// `other` is a prefix of this string.
    pub fn starts_with(&self, other: &String) -> (r: bool)
        ensures
            r == (other@.len() <= self@.len() && self@.subrange(0, other@.len() as int) == other@),
    {
        if self.len() >= other.len() {
            self.substr(0, other.len()).equals(other)
        } else {
            false
        }
    }

    /// `other` is a suffix of this string.
    pub fn ends_with(&self, other: &String) -> (r: bool)
        ensures
            r == (other@.len() <= self@.len() && self@.subrange(
                self@.len() - other@.len(),
                self@.len() as int,
            ) == other@),
    {
        if self.len() >= other.len() {
            self.substr(self.len() - other.len(), other.len()).equals(other)
        } else {
            false
        }
    }

    /// This string followed by `other`.
    pub fn concat(&self, other: &String) -> (r: String)
        ensures
            r@ == self@ + other@,
    {
        let mut data = self.data.clone();
        let mut i: usize = 0;
        while i < other.data.len()
            invariant
                i <= other@.len(),
                data@ == self@ + other@.subrange(0, i as int),
            decreases other@.len() - i,
        {
            data.push(other.data[i]);
            i = i + 1;
            assert(data@ =~= self@ + other@.subrange(0, i as int));
        }
        assert(other@.subrange(0, i as int) =~= other@);
        String { data }
    }

    /// Number of characters.
    pub fn len(&self) -> (r: usize)
        ensures
            r == self@.len(),
    {
        self.data.len()
    }

    /// The characters, in order.
    pub fn iter(&self) -> (r: Vec<char>)
        ensures
            r@ == self@,
    {
        self.data.clone()
    }

    /// Each character cut to a byte, then a NUL.
    pub fn to_c_str(&self) -> (r: Vec<u8>)
        ensures
            r@ == self@.map_values(|c: char| c as u8).push(0u8),
    {
        let mut out: Vec<u8> = Vec::new();
        let mut i: usize = 0;
        while i < self.data.len()
            invariant
                i <= self@.len(),
                out@ == self@.subrange(0, i as int).map_values(|c: char| c as u8),
            decreases self@.len() - i,
        {
            out.push(self.data[i] as u8);
            i = i + 1;
            assert(out@ =~= self@.subrange(0, i as int).map_values(|c: char| c as u8));
        }
        assert(self@.subrange(0, i as int) =~= self@);
        out.push(0u8);
        out
    }

    /// The leading digits below `radix` (`0`-`9`, then letters of either
    /// case) read in base `radix`, in wrapping arithmetic; 0 for base 0.
    pub fn to_num_radix(&self, radix: usize) -> (r: usize)
        ensures
            radix == 0 ==> r == 0,
            radix != 0 ==> r == digits_wrapping(self@.take(digit_run(self@, radix, 0)), radix),
    {
        if radix == 0 {
            return 0;
        }
        let mut num: usize = 0;
        let mut i: usize = 0;
        while i < self.data.len()
            invariant
                i <= self@.len(),
                digit_run(self@, radix, 0) == digit_run(self@, radix, i as int),
                num == digits_wrapping(self@.take(i as int), radix),
            decreases self@.len() - i,
        {
            let c = self.data[i];
            let d: usize = if '0' <= c && c <= '9' {
                (c as u32 - 48) as usize
            } else if 'A' <= c && c <= 'Z' {
                (c as u32 - 55) as usize
            } else if 'a' <= c && c <= 'z' {
                (c as u32 - 87) as usize
            } else {
                return num;
            };
            if d >= radix {
                return num;
            }
            proof {
                assert(self@.take(i + 1).drop_last() =~= self@.take(i as int));
            }
            num = num.wrapping_mul(radix).wrapping_add(d);
            i = i + 1;
        }
        assert(self@.take(i as int) =~= self@);
        num
    }

    /// The leading decimal digits, read in wrapping arithmetic.
    pub fn to_num(&self) -> (r: usize)
        ensures
            r == digits_wrapping(self@.take(digit_run(self@, 10, 0)), 10),
    {
        self.to_num_radix(10)
    }
}

/// Appends `num` written in base `radix`.
fn push_digits(out: &mut Vec<char>, num: usize, radix: usize)
    requires
        1 <= radix <= 201,
        radix == 1 ==> num == 0,
    ensures
        final(out)@ == old(out)@ + numeral(num as nat, radix as nat),
    decreases num,
{
    if num >= radix {
        proof {
            vstd::arithmetic::div_mod::lemma_div_decreases(num as int, radix as int);
        }
        push_digits(out, num / radix, radix);
    }
    let ghost mid = out@;
    out.push(digit_to_char(num % radix));
    proof {
        if num < radix {
            vstd::arithmetic::div_mod::lemma_small_mod(num as nat, radix as nat);
            assert(numeral(num as nat, radix as nat) == seq![digit_char(num as nat)]);
            assert(mid == old(out)@);
        } else {
            assert(numeral(num as nat, radix as nat) == numeral((num / radix) as nat, radix as nat).push(
                digit_char((num % radix) as nat),
            ));
        }
    }
    assert(out@ =~= old(out)@ + numeral(num as nat, radix as nat));
}

} // verus!
