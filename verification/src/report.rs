//! The text in which a client is told about the receiver.
use vstd::prelude::*;

use crate::session::Stats;

verus! {

/// Why something could not be written as JSON, as the `serde_json` crate says it.
#[verifier::external_type_specification]
#[verifier::external_body]
pub struct ExJsonError(serde_json::Error);

/// The decimal digit `d`.
pub open spec fn digit(d: nat) -> char
    recommends
        d < 10,
{
    ('0' as nat + d) as char
}

/// `n` in decimal digits, without leading zeros.
pub open spec fn decimal(n: nat) -> Seq<char>
    decreases n,
{
    if n < 10 {
        seq![digit(n)]
    } else {
        decimal(n / 10).push(digit(n % 10))
    }
}

/// The number that a run of decimal digits spells.
pub open spec fn spelled(digits: Seq<char>) -> int
    decreases digits.len(),
{
    if digits.len() == 0 {
        0
    } else {
        10 * spelled(digits.drop_last()) + (digits.last() as int - '0' as int)
    }
}

/// The text for a report.
pub open spec fn text_of(stats: Stats) -> Seq<char> {
    match stats {
        Stats::Frequency(frequency) => decimal(frequency as nat),
    }
}

/// `serde_json::to_string` of a `u32`: writing it cannot fail, and gives its decimal digits.
#[verifier::external_body]
fn json_number(n: u32) -> (text: Result<String, serde_json::Error>)
    ensures
        text is Ok,
        text->Ok_0@ == decimal(n as nat),
{
    serde_json::to_string(&n)
}

/// Writes a report: the bare number, as JSON.
pub fn report_text(stats: Stats) -> (text: String)
    ensures
        text@ == text_of(stats),
        spelled(text@) == stats->Frequency_0,
{
    proof {
        law_report_readable(stats->Frequency_0);
    }
    match stats {
        Stats::Frequency(frequency) => json_number(frequency).unwrap(),
    }
}

/// A number can be read back from its decimal digits.
pub proof fn law_decimal_readable(n: nat)
    ensures
        spelled(decimal(n)) == n,
    decreases n,
{
    assert(decimal(n).last() == digit(n % 10));
    assert(digit(n % 10) as int == '0' as int + n % 10);
    if n < 10 {
        assert(decimal(n).drop_last() =~= Seq::<char>::empty());
        assert(spelled(Seq::<char>::empty()) == 0);
    } else {
        law_decimal_readable(n / 10);
        assert(decimal(n).drop_last() =~= decimal(n / 10));
    }
}

/// A client can read the frequency out of a report: its text is made of decimal digits, without
/// leading zeros, and spells that frequency.
pub proof fn law_report_readable(frequency: u32)
    ensures
        ({
            let text = text_of(Stats::Frequency(frequency));
            &&& spelled(text) == frequency
            &&& text.len() > 0
            &&& text[0] == '0' ==> frequency == 0 && text.len() == 1
            &&& forall|i: int| 0 <= i < text.len() ==> '0' <= #[trigger] text[i] <= '9'
        }),
{
    law_decimal_readable(frequency as nat);
    lemma_decimal_digits(frequency as nat);
}

/// The text of a report grows by one digit with each decimal place: a frequency below ten is its
/// digit, and ten times a frequency plus a digit has that digit behind the frequency's text.
pub proof fn law_report_digits(frequency: u32, d: u32)
    requires
        d < 10,
        10 * frequency + d <= u32::MAX,
    ensures
        ({
            let text = text_of(Stats::Frequency((10 * frequency + d) as u32));
            &&& text.last() as int == '0' as int + d
            &&& text.drop_last() == if frequency == 0 {
                Seq::<char>::empty()
            } else {
                text_of(Stats::Frequency(frequency))
            }
        }),
{
    let n = (10 * frequency + d) as nat;
    assert(digit(d as nat) as int == '0' as int + d);
    if frequency == 0 {
        assert(decimal(n).drop_last() =~= Seq::<char>::empty());
    } else {
        assert(n / 10 == frequency && n % 10 == d);
        assert(decimal(n) == decimal(frequency as nat).push(digit(d as nat)));
        assert(decimal(n).drop_last() =~= decimal(frequency as nat));
    }
}

proof fn lemma_decimal_digits(n: nat)
    ensures
        decimal(n).len() > 0,
        decimal(n)[0] == '0' ==> n == 0 && decimal(n).len() == 1,
        forall|i: int| 0 <= i < decimal(n).len() ==> '0' <= #[trigger] decimal(n)[i] <= '9',
    decreases n,
{
    assert(digit(n % 10) as int == '0' as int + n % 10);
    if n >= 10 {
        lemma_decimal_digits(n / 10);
        assert(decimal(n)[0] == decimal(n / 10)[0]);
    }
}

/// Different reports have different texts.
pub proof fn law_reports_distinct(a: Stats, b: Stats)
    requires
        text_of(a) == text_of(b),
    ensures
        a == b,
{
    law_decimal_readable(a->Frequency_0 as nat);
    law_decimal_readable(b->Frequency_0 as nat);
}

} // verus!
