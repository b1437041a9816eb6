use vstd::prelude::*;
use crate::text::push_char;

verus! {

/// Where a new instance keeps its completed reviews.
pub const DEFAULT_PATH_TO_REVIEWS: &'static str = "./reviews";

/// Where a new instance writes its reports.
pub const DEFAULT_PATH_TO_REPORTS: &'static str = "./reports";

/// How many periods a report accumulates by default.
pub const DEFAULT_ACCUMULATION_PERIOD: u32 = 4;

/// The decimal digit for `d`, which is below ten.
pub open spec fn digit_char(d: nat) -> char {
    ((48 + d) as u8) as char
}

/// `n` written in decimal, most significant digit first, without leading
/// zeros.
pub open spec fn decimal(n: nat) -> Seq<char>
    decreases n,
{
    if n < 10 {
        seq![digit_char(n)]
    } else {
        decimal(n / 10).push(digit_char(n % 10))
    }
}

/// `n` written in decimal.
pub fn decimal_string(n: u64) -> (r: String)
    ensures
        r@ == decimal(n as nat),
    decreases n,
{
    let d: u8 = (n % 10) as u8;
    let c: char = (48u8 + d) as char;
    if n < 10 {
        let mut r = String::new();
        push_char(&mut r, c);
        r
    } else {
        let mut r = decimal_string(n / 10);
        push_char(&mut r, c);
        r
    }
}

/// The text of the `options.toml` that a new instance starts with.
pub open spec fn default_options() -> Seq<char> {
    "path_to_reviews = \""@ + DEFAULT_PATH_TO_REVIEWS@ + "\"\npath_to_reports = \""@
        + DEFAULT_PATH_TO_REPORTS@ + "\"\naccumulation_period = "@ + decimal(
        DEFAULT_ACCUMULATION_PERIOD as nat,
    ) + "\n"@
}

/// The default instance settings, in TOML.
pub fn default_options_toml() -> (r: String)
    ensures
        r@ == default_options(),
{
    let mut r = String::from_str("path_to_reviews = \"");
    r.append(DEFAULT_PATH_TO_REVIEWS);
    r.append("\"\npath_to_reports = \"");
    r.append(DEFAULT_PATH_TO_REPORTS);
    r.append("\"\naccumulation_period = ");
    let n = decimal_string(DEFAULT_ACCUMULATION_PERIOD as u64);
    r.append(n.as_str());
    r.append("\n");
    r
}

/// What `init` writes to `options.toml`: the defaults when the file does not
/// exist yet, and nothing when it does, so that the user's edits stay.
pub fn options_toml_to_write(exists: bool) -> (r: Option<String>)
    ensures
        r is None <==> exists,
        r matches Some(text) ==> text@ == default_options(),
{
    if exists {
        None
    } else {
        Some(default_options_toml())
    }
}

/// Whether `c` is one of the decimal digits `0` to `9`.
pub open spec fn is_digit(c: char) -> bool {
    '0' <= c && c <= '9'
}

/// The number that a string of decimal digits stands for.
pub open spec fn digits_value(s: Seq<char>) -> int
    decreases s.len(),
{
    if s.len() == 0 {
        0
    } else {
        digits_value(s.drop_last()) * 10 + (s.last() as int - '0' as int)
    }
}

proof fn lemma_digit_char_value(d: nat)
    requires
        d < 10,
    ensures
        digit_char(d) as int == '0' as int + d,
        is_digit(digit_char(d)),
{
    let b: u8 = (48 + d) as u8;
    assert(b as int == 48 + d);
    assert((b as char) as int == b as int);
}

/// A number written in decimal is a non-empty string of digits that stands
/// for the number, and starts with `0` only when it is zero.
pub proof fn law_decimal_reads_back(n: nat)
    ensures
        decimal(n).len() > 0,
        forall|k: int| 0 <= k < decimal(n).len() ==> is_digit(#[trigger] decimal(n)[k]),
        digits_value(decimal(n)) == n,
        decimal(n)[0] == '0' ==> n == 0,
    decreases n,
{
    lemma_digit_char_value(n % 10);
    if n < 10 {
        assert(decimal(n) =~= seq![digit_char(n)]);
        assert(digits_value(Seq::<char>::empty()) == 0);
        assert(seq![digit_char(n)].drop_last() =~= Seq::<char>::empty());
    } else {
        let q = n / 10;
        law_decimal_reads_back(q);
        let d = decimal(n);
        assert(d == decimal(q).push(digit_char(n % 10)));
        assert(d.drop_last() =~= decimal(q));
        assert(n == q * 10 + n % 10);
        assert forall|k: int| 0 <= k < d.len() implies is_digit(#[trigger] d[k]) by {
            if k < decimal(q).len() {
                assert(d[k] == decimal(q)[k]);
            }
        }
        assert(d[0] == decimal(q)[0]);
    }
}

} // verus!
