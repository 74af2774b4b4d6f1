use vstd::prelude::*;

use crate::amount::Amount;

verus! {

/// The two groups of the first match of `(\d+),(\d{2})` in `s`, if any.
pub uninterp spec fn amount_match(s: Seq<char>) -> Option<(Seq<char>, Seq<char>)>;

/// Relies on regex::Regex::new and Regex::captures: the first match of the
/// pattern in `s`, with its two groups. The pattern is a valid constant.
#[verifier::external_body]
fn find_amount(s: &str) -> (r: Option<(String, String)>)
    ensures
        r is None <==> amount_match(s@) is None,
        r matches Some(p) ==> amount_match(s@) == Some((p.0@, p.1@)),
{
    let regex = regex::Regex::new(r"(\d+),(\d{2})").expect("valid pattern");
    regex.captures(s).map(|c| (c[1].to_string(), c[2].to_string()))
}

pub open spec fn is_digit(c: char) -> bool {
    '0' <= c && c <= '9'
}

/// The number that a string of decimal digits spells.
pub open spec fn decimal(s: Seq<char>) -> int
    decreases s.len(),
{
    if s.len() == 0 {
        0
    } else {
        decimal(s.drop_last()) * 10 + (s.last() as int - '0' as int)
    }
}

/// `s` is a non-empty run of decimal digits whose number fits an `i64`.
pub open spec fn parses(s: Seq<char>) -> bool {
    &&& s.len() > 0
    &&& forall|i: int| 0 <= i < s.len() ==> is_digit(#[trigger] s[i])
    &&& decimal(s) <= i64::MAX
}

proof fn lemma_decimal_grows(s: Seq<char>, i: int, j: int)
    requires
        0 <= i <= j <= s.len(),
        forall|k: int| 0 <= k < s.len() ==> is_digit(#[trigger] s[k]),
    ensures
        0 <= decimal(s.subrange(0, i)) <= decimal(s.subrange(0, j)),
    decreases j,
{
    if j > 0 {
        assert(s.subrange(0, j).drop_last() =~= s.subrange(0, j - 1));
        assert(s.subrange(0, j).last() == s[j - 1]);
        if i < j {
            lemma_decimal_grows(s, i, j - 1);
        } else {
            lemma_decimal_grows(s, j - 1, j - 1);
        }
    } else {
        assert(s.subrange(0, 0).len() == 0);
    }
}

/// The value of a run of decimal digits, or `None` where `s` is empty, holds
/// anything but digits, or spells a number too large for an `i64`.
pub fn parse_decimal(s: &str) -> (r: Option<i64>)
    ensures
        r is Some <==> parses(s@),
        r matches Some(v) ==> v == decimal(s@) && v >= 0,
{
    let n = s.unicode_len();
    if n == 0 {
        return None;
    }
    let mut i: usize = 0;
    while i < n
        invariant
            n == s@.len(),
            i <= n,
            forall|k: int| 0 <= k < i ==> is_digit(#[trigger] s@[k]),
        decreases n - i,
    {
        let c = s.get_char(i);
        if c < '0' || c > '9' {
            return None;
        }
        i = i + 1;
    }
    let mut acc: i64 = 0;
    let mut i: usize = 0;
    while i < n
        invariant
            n == s@.len(),
            n > 0,
            i <= n,
            forall|k: int| 0 <= k < n ==> is_digit(#[trigger] s@[k]),
            acc == decimal(s@.subrange(0, i as int)),
            acc >= 0,
        decreases n - i,
    {
        let c = s.get_char(i);
        let d = (c as u32 - '0' as u32) as i64;
        assert(s@.subrange(0, i + 1).drop_last() =~= s@.subrange(0, i as int));
        if acc > (i64::MAX - d) / 10 {
            proof {
                lemma_decimal_grows(s@, i + 1, n as int);
                assert(s@.subrange(0, n as int) =~= s@);
            }
            return None;
        }
        acc = acc * 10 + d;
        i = i + 1;
    }
    assert(s@.subrange(0, n as int) =~= s@);
    Some(acc)
}

/// `p` stands in `s` at `i`.
pub open spec fn occurs_at(s: Seq<u8>, p: Seq<u8>, i: int) -> bool {
    0 <= i && i + p.len() <= s.len() && s.subrange(i, i + p.len()) == p
}

/// Where the last line break of `s` stands, or -1.
pub open spec fn last_break(s: Seq<u8>) -> int
    decreases s.len(),
{
    if s.len() == 0 {
        -1
    } else if s.last() == 10 {
        s.len() - 1
    } else {
        last_break(s.drop_last())
    }
}

/// `s` up to its last line break, which goes too; `None` without one.
pub open spec fn without_last_line(s: Seq<u8>) -> Option<Seq<u8>> {
    if last_break(s) >= 0 {
        Some(s.subrange(0, last_break(s)))
    } else {
        None
    }
}

/// `s` without its last three lines; `Err(n)` where the `n`-th of them
/// is missing.
pub open spec fn without_trailer(s: Seq<u8>) -> Result<Seq<u8>, u8> {
    match without_last_line(s) {
        None => Err(1),
        Some(a) => match without_last_line(a) {
            None => Err(2),
            Some(b) => match without_last_line(b) {
                None => Err(3),
                Some(c) => Ok(c),
            },
        },
    }
}

/// Why the records of a bank statement could not be found.
#[derive(Clone, Debug, PartialEq, Eq, Structural)]
pub enum StatementError {
    /// The header marker does not occur.
    MissingHeader,
    /// Fewer lines than expected follow the header; the number says which
    /// of the trailing lines was missing.
    MissingTrailer(u8),
}

proof fn lemma_last_break(s: Seq<u8>)
    ensures
        -1 <= last_break(s) < s.len(),
        last_break(s) >= 0 ==> s[last_break(s)] == 10,
        forall|k: int| last_break(s) < k < s.len() ==> s[k] != 10,
    decreases s.len(),
{
    if s.len() > 0 && s.last() != 10 {
        lemma_last_break(s.drop_last());
        assert forall|k: int| last_break(s) < k < s.len() implies s[k] != 10 by {
            if k < s.len() - 1 {
                assert(s[k] == s.drop_last()[k]);
            }
        }
    }
}

/// `s` without its last line, found by a search from the end.
fn cut_last_line(s: &Vec<u8>) -> (r: Option<Vec<u8>>)
    ensures
        r is None <==> without_last_line(s@) is None,
        r matches Some(v) ==> without_last_line(s@) == Some(v@),
{
    proof {
        lemma_last_break(s@);
    }
    let mut j: usize = s.len();
    while j > 0 && s[j - 1] != 10
        invariant
            j <= s@.len(),
            forall|k: int| j <= k < s@.len() ==> s@[k] != 10,
        decreases j,
    {
        j = j - 1;
    }
    if j == 0 {
        return None;
    }
    let mut out: Vec<u8> = Vec::new();
    let mut k: usize = 0;
    while k < j - 1
        invariant
            j <= s@.len(),
            k <= j - 1,
            out@ == s@.subrange(0, k as int),
        decreases j - 1 - k,
    {
        out.push(s[k]);
        k = k + 1;
        assert(out@ =~= s@.subrange(0, k as int));
    }
    Some(out)
}

/// The records of a bank statement: what follows the first occurrence of
/// `header`, without the last three lines, which hold no records.
pub fn statement_body(input: &[u8], header: &[u8]) -> (r: Result<Vec<u8>, StatementError>)
    ensures
        r matches Err(StatementError::MissingHeader) <==> !exists|i: int| occurs_at(input@, header@, i),
        (exists|i: int| occurs_at(input@, header@, i)) ==> exists|i: int| {
            &&& occurs_at(input@, header@, i)
            &&& forall|j: int| 0 <= j < i ==> !occurs_at(input@, header@, j)
            &&& match without_trailer(input@.subrange(i + header@.len(), input@.len() as int)) {
                Ok(body) => r matches Ok(v) && v@ == body,
                Err(n) => r matches Err(StatementError::MissingTrailer(k)) && k == n,
            }
        },
{
    let n = input.len();
    let m = header.len();
    if m > n {
        return Err(StatementError::MissingHeader);
    }
    let mut found: Option<usize> = None;
    let mut i: usize = 0;
    while i <= n - m && found.is_none()
        invariant
            n == input@.len(),
            m == header@.len(),
            m <= n,
            found matches Some(f) ==> occurs_at(input@, header@, f as int) && forall|j: int| 0 <= j < f ==> !occurs_at(input@, header@, j),
            found is None ==> forall|j: int| 0 <= j < i ==> !occurs_at(input@, header@, j),
        decreases n + 1 - i, if found is None { 1int } else { 0int },
    {
        let mut k: usize = 0;
        while k < m && input[i + k] == header[k]
            invariant
                n == input@.len(),
                m == header@.len(),
                i + m <= n,
                k <= m,
                forall|t: int| 0 <= t < k ==> input@[i + t] == header@[t],
            decreases m - k,
        {
            k = k + 1;
        }
        if k == m {
            assert(input@.subrange(i as int, i + m) =~= header@);
            found = Some(i);
        } else {
            assert(input@.subrange(i as int, i + m)[k as int] != header@[k as int]);
            i = i + 1;
        }
    }
    let start = match found {
        Some(f) => f + m,
        None => {
            assert forall|j: int| !occurs_at(input@, header@, j) by {
                if 0 <= j && j + m <= n {
                    assert(j < i);
                }
            }
            return Err(StatementError::MissingHeader);
        },
    };
    let ghost at = (start - m) as int;
    let mut rest: Vec<u8> = Vec::new();
    let mut k: usize = start;
    while k < n
        invariant
            n == input@.len(),
            start <= k <= n,
            rest@ == input@.subrange(start as int, k as int),
        decreases n - k,
    {
        rest.push(input[k]);
        k = k + 1;
        assert(rest@ =~= input@.subrange(start as int, k as int));
    }
    assert(rest@ =~= input@.subrange(start as int, n as int));
    assert(occurs_at(input@, header@, at));
    let a = match cut_last_line(&rest) {
        Some(a) => a,
        None => {
            return Err(StatementError::MissingTrailer(1));
        },
    };
    let b = match cut_last_line(&a) {
        Some(b) => b,
        None => {
            return Err(StatementError::MissingTrailer(2));
        },
    };
    match cut_last_line(&b) {
        Some(body) => Ok(body),
        None => Err(StatementError::MissingTrailer(3)),
    }
}

/// Why an amount could not be read from a bank statement.
#[derive(Clone, Debug)]
pub enum ImportError {
    /// No `units,cents` figure was found.
    MissingAmount,
    /// The figure does not fit an amount.
    AmountOutOfRange,
    /// The credit/debit marker is neither "H" nor "S".
    InvalidCreditDebit(String),
}

/// The value in minor units of `units,cents`.
pub open spec fn figure(units: Seq<char>, cents: Seq<char>) -> int {
    decimal(units) * 100 + decimal(cents)
}

/// The amount for the figure `units,cents`, positive for credit ("H") and
/// negative for debit ("S").
pub fn amount_from_parts(units: &str, cents: &str, credit_or_debit: &str) -> (r: Result<Amount, ImportError>)
    ensures
        if !parses(units@) || !parses(cents@) || figure(units@, cents@) > i64::MAX {
            r matches Err(ImportError::AmountOutOfRange)
        } else if credit_or_debit@ == "H"@ {
            r matches Ok(a) && a@ == figure(units@, cents@)
        } else if credit_or_debit@ == "S"@ {
            r matches Ok(a) && a@ == -figure(units@, cents@)
        } else {
            r matches Err(ImportError::InvalidCreditDebit(m)) && m@ == credit_or_debit@
        },
{
    let units = match parse_decimal(units) {
        Some(v) => v,
        None => {
            return Err(ImportError::AmountOutOfRange);
        },
    };
    let cents = match parse_decimal(cents) {
        Some(v) => v,
        None => {
            return Err(ImportError::AmountOutOfRange);
        },
    };
    let limit = (i64::MAX - cents) / 100;
    if units > limit {
        assert(units * 100 + cents > i64::MAX) by (nonlinear_arith)
            requires
                units > limit,
                limit == (i64::MAX - cents) / 100,
                cents >= 0,
        ;
        return Err(ImportError::AmountOutOfRange);
    }
    assert(units * 100 + cents <= i64::MAX) by (nonlinear_arith)
        requires
            units <= limit,
            limit == (i64::MAX - cents) / 100,
            cents >= 0,
            units >= 0,
    ;
    let value = Amount::from_int_and_frac(units, cents);
    let marker = credit_or_debit.to_owned();
    if marker == String::from_str("H") {
        Ok(value)
    } else if marker == String::from_str("S") {
        Ok(Amount(-value.0))
    } else {
        Err(ImportError::InvalidCreditDebit(marker))
    }
}

/// Reads an amount written `units,cents` (the first such figure in
/// `amount`), positive for credit ("H") and negative for debit ("S").
pub fn parse_amount(amount: &str, credit_or_debit: &str) -> (r: Result<Amount, ImportError>)
    ensures
        amount_match(amount@) is None ==> r matches Err(ImportError::MissingAmount),
        amount_match(amount@) matches Some(p) ==> {
            if !parses(p.0) || !parses(p.1) || figure(p.0, p.1) > i64::MAX {
                r matches Err(ImportError::AmountOutOfRange)
            } else if credit_or_debit@ == "H"@ {
                r matches Ok(a) && a@ == figure(p.0, p.1)
            } else if credit_or_debit@ == "S"@ {
                r matches Ok(a) && a@ == -figure(p.0, p.1)
            } else {
                r matches Err(ImportError::InvalidCreditDebit(m)) && m@ == credit_or_debit@
            }
        },
{
    match find_amount(amount) {
        Some((units, cents)) => amount_from_parts(units.as_str(), cents.as_str(), credit_or_debit),
        None => Err(ImportError::MissingAmount),
    }
}

} // verus!
