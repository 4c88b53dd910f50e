//! Observed access points.

use vstd::prelude::*;

verus! {

/// Text that does not describe a frequency or a channel width.
#[derive(Clone, Copy, Debug, PartialEq, Eq, Structural)]
pub enum ParseError {
    NotANumber,
    UnknownWidth,
}

pub open spec fn is_digit(c: char) -> bool {
    '0' <= c && c <= '9'
}

/// The value of a string of decimal digits.
pub open spec fn decimal_value(s: Seq<char>) -> nat
    decreases s.len(),
{
    if s.len() == 0 {
        0
    } else {
        decimal_value(s.drop_last()) * 10 + (s.last() as nat - '0' as nat) as nat
    }
}

/// The digits of an unsigned number as Rust's integer parsing reads them: an
/// optional leading `+`, then the digits.
pub open spec fn unsigned_digits(s: Seq<char>) -> Seq<char> {
    if s.len() > 0 && s[0] == '+' {
        s.drop_first()
    } else {
        s
    }
}

/// `s` is an unsigned decimal number of at most `max`.
pub open spec fn is_unsigned_at_most(s: Seq<char>, max: nat) -> bool {
    let d = unsigned_digits(s);
    &&& d.len() > 0
    &&& forall|i: int| 0 <= i < d.len() ==> is_digit(#[trigger] d[i])
    &&& decimal_value(d) <= max
}

proof fn lemma_decimal_grows(s: Seq<char>, i: int)
    requires
        0 <= i <= s.len(),
        forall|k: int| 0 <= k < s.len() ==> is_digit(#[trigger] s[k]),
    ensures
        decimal_value(s.take(i)) <= decimal_value(s),
    decreases s.len() - i,
{
    if i < s.len() {
        lemma_decimal_grows(s, i + 1);
        assert(s.take(i + 1).drop_last() =~= s.take(i));
    } else {
        assert(s.take(i) =~= s);
    }
}

/// Reads an unsigned decimal number of at most `max`, as Rust's integer parsing does.
pub fn parse_unsigned(s: &str, max: u64) -> (r: Option<u64>)
    requires
        max <= u32::MAX,
    ensures
        r is Some <==> is_unsigned_at_most(s@, max as nat),
        r is Some ==> r->Some_0 == decimal_value(unsigned_digits(s@)),
{
    let n = s.unicode_len();
    let mut i: usize = 0;
    if n > 0 && s.get_char(0) == '+' {
        i = 1;
    }
    let start = i;
    let ghost d = unsigned_digits(s@);
    proof {
        assert(d =~= s@.skip(start as int));
    }
    if start == n {
        return None;
    }
    let mut acc: u64 = 0;
    proof {
        assert(d.take(0) =~= Seq::<char>::empty());
    }
    while i < n
        invariant
            n == s@.len(),
            start <= i <= n,
            start < n,
            d == s@.skip(start as int),
            d == unsigned_digits(s@),
            forall|k: int| 0 <= k < i - start ==> is_digit(#[trigger] d[k]),
            acc == decimal_value(d.take(i - start)),
            acc <= max <= u32::MAX,
        decreases n - i,
    {
        let c = s.get_char(i);
        proof {
            assert(d[i - start] == c);
        }
        if !('0' <= c && c <= '9') {
            proof {
                assert(!is_digit(d[i - start]));
                assert(!is_unsigned_at_most(s@, max as nat));
            }
            return None;
        }
        let v = (c as u32 - '0' as u32) as u64;
        proof {
            assert(d.take(i - start + 1).drop_last() =~= d.take(i - start));
            assert(d.take(i - start + 1).last() == c);
        }
        let next: u64 = acc * 10 + v;
        if next > max {
            proof {
                if forall|k: int| 0 <= k < d.len() ==> is_digit(#[trigger] d[k]) {
                    lemma_decimal_grows(d, i - start + 1);
                    assert(decimal_value(d.take(i - start + 1)) == next);
                    assert(decimal_value(d) > max);
                }
                assert(!is_unsigned_at_most(s@, max as nat));
            }
            return None;
        }
        acc = next;
        i += 1;
    }
    proof {
        assert(d.take(i - start) =~= d);
    }
    Some(acc)
}

/// The band of an access point, with the raw frequency in MHz.
#[derive(Clone, Copy, Debug, PartialEq, Eq, Structural)]
pub enum Frequency {
    Freq2400MHz(u16),
    Freq5000MHz(u16),
}

/// Frequencies below this value (MHz) belong to the 2.4GHz band.
pub const BAND_5G_START_MHZ: u16 = 2500;

impl Frequency {
    /// The band that a raw frequency in MHz falls in.
    pub fn from_mhz(val: u16) -> (r: Frequency)
        ensures
            r == (if val < BAND_5G_START_MHZ {
                Frequency::Freq2400MHz(val)
            } else {
                Frequency::Freq5000MHz(val)
            }),
    {
        if val < BAND_5G_START_MHZ {
            Frequency::Freq2400MHz(val)
        } else {
            Frequency::Freq5000MHz(val)
        }
    }
}

impl Frequency {
    /// Reads a frequency in MHz as Rust's `u16` parsing does, and places it in its band.
    pub fn from_str(s: &str) -> (r: Result<Frequency, ParseError>)
        ensures
            r is Ok <==> is_unsigned_at_most(s@, 65535),
            r is Ok ==> r->Ok_0 == (if decimal_value(unsigned_digits(s@)) < BAND_5G_START_MHZ {
                Frequency::Freq2400MHz(decimal_value(unsigned_digits(s@)) as u16)
            } else {
                Frequency::Freq5000MHz(decimal_value(unsigned_digits(s@)) as u16)
            }),
    {
        match parse_unsigned(s, 65535) {
            Some(v) => Ok(Frequency::from_mhz(v as u16)),
            None => Err(ParseError::NotANumber),
        }
    }
}

/// The text before the first `c`, or all of it.
pub open spec fn before_first(s: Seq<char>, c: char) -> Seq<char>
    decreases s.len(),
{
    if s.len() == 0 || s[0] == c {
        Seq::empty()
    } else {
        seq![s[0]] + before_first(s.drop_first(), c)
    }
}

/// The text up to the first space.
pub open spec fn first_token(s: Seq<char>) -> Seq<char> {
    before_first(s, ' ')
}

pub proof fn lemma_before_first(s: Seq<char>, c: char, i: int)
    requires
        0 <= i <= s.len(),
        forall|j: int| 0 <= j < i ==> s[j] != c,
        i == s.len() || s[i] == c,
    ensures
        before_first(s, c) == s.take(i),
    decreases i,
{
    if i == 0 {
        assert(s.take(0) =~= Seq::<char>::empty());
    } else {
        lemma_before_first(s.drop_first(), c, i - 1);
        assert(s.take(i) =~= seq![s[0]] + s.drop_first().take(i - 1));
    }
}

/// The width that a number of MHz names.
pub open spec fn width_of(v: nat) -> Option<Width> {
    if v == 20 {
        Some(Width::MHz20)
    } else if v == 40 {
        Some(Width::MHz40)
    } else if v == 80 {
        Some(Width::MHz80)
    } else if v == 160 {
        Some(Width::MHz160)
    } else {
        None
    }
}

/// The channel width of an access point.
#[derive(Clone, Copy, Debug, PartialEq, Eq, Structural)]
pub enum Width {
    MHz20,
    MHz40,
    MHz80,
    MHz160,
}

impl Width {
    /// Reads a width such as `80 MHz`: the text up to the first space, read as Rust's
    /// `u8` parsing does, must be 20, 40, 80 or 160.
    pub fn from_str(s: &str) -> (r: Result<Width, ParseError>)
        ensures
            r is Ok <==> is_unsigned_at_most(first_token(s@), 255) && width_of(
                decimal_value(unsigned_digits(first_token(s@))),
            ) is Some,
            r is Ok ==> Some(r->Ok_0) == width_of(decimal_value(unsigned_digits(first_token(s@)))),
    {
        let n = s.unicode_len();
        let mut i: usize = 0;
        while i < n && s.get_char(i) != ' '
            invariant
                n == s@.len(),
                i <= n,
                forall|j: int| 0 <= j < i ==> s@[j] != ' ',
            decreases n - i,
        {
            i += 1;
        }
        proof {
            lemma_before_first(s@, ' ', i as int);
        }
        let token = s.substring_char(0, i);
        proof {
            assert(token@ =~= first_token(s@));
        }
        match parse_unsigned(token, 255) {
            Some(20) => Ok(Width::MHz20),
            Some(40) => Ok(Width::MHz40),
            Some(80) => Ok(Width::MHz80),
            Some(160) => Ok(Width::MHz160),
            _ => Err(ParseError::UnknownWidth),
        }
    }
}

/// One observed access point.
pub struct Wifi {
    pub ssid: String,
    pub mac: String,
    pub channel: u8,
    /// Signal level in thousandths of a dBm.
    pub signal_mdbm: i32,
    pub frequency: Frequency,
    pub width: Width,
}

impl Wifi {
    pub open spec fn spec_is_2_4g(&self) -> bool {
        self.frequency is Freq2400MHz
    }

    pub fn is_2_4g(&self) -> (r: bool)
        ensures
            r == self.spec_is_2_4g(),
    {
        match self.frequency {
            Frequency::Freq2400MHz(_) => true,
            Frequency::Freq5000MHz(_) => false,
        }
    }

    pub fn is_5g(&self) -> (r: bool)
        ensures
            r == (self.frequency is Freq5000MHz),
    {
        match self.frequency {
            Frequency::Freq2400MHz(_) => false,
            Frequency::Freq5000MHz(_) => true,
        }
    }
}

impl Clone for Wifi {
    fn clone(&self) -> (r: Self)
        ensures
            r == *self,
    {
        Wifi {
            ssid: self.ssid.clone(),
            mac: self.mac.clone(),
            channel: self.channel,
            signal_mdbm: self.signal_mdbm,
            frequency: self.frequency,
            width: self.width,
        }
    }
}

} // verus!
