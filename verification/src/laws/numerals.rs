//! What decimal numerals stand for.
use crate::text::decimal_text;
use vstd::prelude::*;

verus! {

/// The number that a numeral stands for.
pub open spec fn value(numeral: Seq<char>) -> int
    decreases numeral.len(),
{
    if numeral.len() == 0 {
        0
    } else {
        value(numeral.drop_last()) * 10 + (numeral.last() as int - '0' as int)
    }
}

/// A numeral stands for its number. It is made of digits, and does not begin with a zero
/// unless it is one.
pub proof fn law_numerals_read_back(n: nat)
    ensures
        value(crate::text::decimal(n)) == n,
        crate::text::decimal(n).len() > 0,
        forall|i: int|
            0 <= i < crate::text::decimal(n).len() ==> '0' <= #[trigger] crate::text::decimal(n)[i]
                <= '9',
        n > 0 ==> crate::text::decimal(n)[0] != '0',
        n == 0 ==> crate::text::decimal(n).len() == 1,
    decreases n,
{
    let numeral = crate::text::decimal(n);
    if n < 10 {
        assert(numeral.drop_last() =~= Seq::<char>::empty());
        assert(value(numeral.drop_last()) == 0);
    } else {
        law_numerals_read_back(n / 10);
        assert(numeral.drop_last() =~= crate::text::decimal(n / 10));
        assert forall|i: int| 0 <= i < numeral.len() implies '0' <= #[trigger] numeral[i]
            <= '9' by {
            if i < numeral.len() - 1 {
                assert(numeral[i] == crate::text::decimal(n / 10)[i]);
            }
        }
    }
}

/// Whether `numeral` is the decimal numeral of `n`: it stands for `n`, is made of digits,
/// and does not begin with a zero unless it is one.
pub open spec fn is_numeral(numeral: Seq<char>, n: int) -> bool {
    &&& value(numeral) == n
    &&& numeral.len() > 0
    &&& forall|i: int| 0 <= i < numeral.len() ==> '0' <= #[trigger] numeral[i] <= '9'
    &&& n > 0 ==> numeral[0] != '0'
    &&& n == 0 ==> numeral.len() == 1
}

/// A number is written as its numeral.
pub proof fn law_decimal_text(n: usize, s: String)
    requires
        call_ensures(decimal_text, (n,), s),
    ensures
        is_numeral(s@, n as int),
{
    law_numerals_read_back(n as nat);
}

}
