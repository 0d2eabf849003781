//! The names of table files: the table's number, at least six digits long, and `.sst`.
use vstd::prelude::*;

verus! {

/// The shortest a table's number is written.
pub const MIN_DIGITS: usize = 6;

/// The decimal digits of a number in ASCII, without leading zeros.
pub open spec fn digits(n: nat) -> Seq<u8>
    decreases n,
{
    if n < 10 {
        seq![(48 + n) as u8]
    } else {
        digits(n / 10).push((48 + n % 10) as u8)
    }
}

/// A number of zeros in ASCII.
pub open spec fn zeros(n: nat) -> Seq<u8> {
    Seq::new(n, |i: int| 48u8)
}

/// The name of a table's file without its extension.
pub open spec fn table_stem(id: nat) -> Seq<u8> {
    let ds = digits(id);
    if ds.len() < MIN_DIGITS {
        zeros((MIN_DIGITS - ds.len()) as nat) + ds
    } else {
        ds
    }
}

/// The extension of a table's file, with its dot.
pub open spec fn table_extension() -> Seq<u8> {
    seq![46u8, 115u8, 115u8, 116u8]
}

/// Nothing but decimal digits.
pub open spec fn all_digits(s: Seq<u8>) -> bool {
    forall|i: int| 0 <= i < s.len() ==> 48 <= #[trigger] s[i] <= 57
}

/// The number that decimal digits spell.
pub open spec fn digits_value(s: Seq<u8>) -> nat
    decreases s.len(),
{
    if s.len() == 0 {
        0
    } else {
        (digits_value(s.drop_last()) * 10 + (s.last() - 48)) as nat
    }
}

/// The digits of a number that may have a plus sign in front.
pub open spec fn unsigned_digits(s: Seq<u8>) -> Seq<u8> {
    if s.len() > 0 && s[0] == 43 {
        s.skip(1)
    } else {
        s
    }
}

/// The table's number that a file's name without its extension spells, if it spells one.
pub open spec fn parse_id(s: Seq<u8>) -> Option<u64> {
    let ds = unsigned_digits(s);
    if ds.len() == 0 || !all_digits(ds) || digits_value(ds) > u64::MAX {
        None
    } else {
        Some(digits_value(ds) as u64)
    }
}

fn push_digits(out: &mut Vec<u8>, n: u64)
    ensures
        final(out)@ == old(out)@ + digits(n as nat),
    decreases n,
{
    let ghost before = out@;
    if n >= 10 {
        push_digits(out, n / 10);
    }
    out.push((48 + n % 10) as u8);
    assert(out@ =~= before + digits(n as nat));
}

/// The name of a table's file.
pub fn table_file_name(id: u64) -> (name: Vec<u8>)
    ensures
        name@ == table_stem(id as nat) + table_extension(),
{
    let mut ds: Vec<u8> = Vec::new();
    push_digits(&mut ds, id);
    assert(ds@ =~= digits(id as nat));
    let mut name: Vec<u8> = Vec::new();
    let mut len: usize = ds.len();
    assert(name@ =~= zeros(0));
    while len < MIN_DIGITS
        invariant
            ds@.len() <= len,
            name@ == zeros((len - ds@.len()) as nat),
            len <= MIN_DIGITS || len == ds@.len(),
        decreases MIN_DIGITS - len,
    {
        name.push(48);
        len = len + 1;
        assert(name@ =~= zeros((len - ds@.len()) as nat));
    }
    name.append(&mut ds);
    assert(name@ =~= table_stem(id as nat));
    name.push(46);
    name.push(115);
    name.push(115);
    name.push(116);
    assert(name@ =~= table_stem(id as nat) + table_extension());
    name
}

/// The table's number that a file's name without its extension spells, if it spells one.
pub fn parse_table_id(stem: &[u8]) -> (r: Option<u64>)
    ensures
        r == parse_id(stem@),
{
    let len: usize = stem.len();
    let first: usize = if len > 0 && stem[0] == 43 {
        1
    } else {
        0
    };
    let ghost ds = unsigned_digits(stem@);
    assert(ds =~= stem@.skip(first as int));
    if first == len {
        return None;
    }
    let mut value: u64 = 0;
    let mut i: usize = first;
    assert(ds.take(0) =~= Seq::<u8>::empty());
    while i < len
        invariant
            first <= i <= len,
            first <= 1,
            len == stem@.len(),
            ds == stem@.skip(first as int),
            ds == unsigned_digits(stem@),
            ds.len() > 0,
            all_digits(ds.take(i - first)),
            value == digits_value(ds.take(i - first)),
        decreases len - i,
    {
        let c: u8 = stem[i];
        let ghost p = i - first;
        proof {
            assert(ds[p] == c);
            assert(ds.take(p + 1).drop_last() =~= ds.take(p));
            assert(ds.take(p + 1).last() == c);
        }
        if c < 48 || c > 57 {
            return None;
        }
        let d: u64 = (c - 48) as u64;
        if value > (u64::MAX - d) / 10 {
            proof {
                lemma_prefix_value(ds, p + 1);
            }
            return None;
        }
        value = value * 10 + d;
        i = i + 1;
    }
    assert(ds.take(len - first) =~= ds);
    Some(value)
}

/// More digits spell no smaller number.
proof fn lemma_prefix_value(s: Seq<u8>, n: int)
    requires
        0 <= n <= s.len(),
    ensures
        all_digits(s) ==> digits_value(s.take(n)) <= digits_value(s),
    decreases s.len(),
{
    if n == s.len() {
        assert(s.take(n) =~= s);
    } else {
        lemma_prefix_value(s.drop_last(), n);
        assert(s.drop_last().take(n) =~= s.take(n));
        if all_digits(s) {
            assert(48 <= s[s.len() - 1]);
            assert forall|i: int| 0 <= i < s.len() - 1 implies 48 <= #[trigger] s.drop_last()[i]
                <= 57 by {
                assert(48 <= s[i] <= 57);
            }
        }
    }
}

proof fn lemma_digits(n: nat)
    ensures
        all_digits(digits(n)),
        digits_value(digits(n)) == n,
        digits(n).len() > 0,
    decreases n,
{
    if n >= 10 {
        lemma_digits(n / 10);
        let front = digits(n / 10);
        assert(digits(n).drop_last() =~= front);
        assert forall|i: int| 0 <= i < digits(n).len() implies 48 <= #[trigger] digits(n)[i]
            <= 57 by {
            if i < front.len() {
                assert(48 <= front[i] <= 57);
            }
        }
    } else {
        assert(digits(n).drop_last() =~= Seq::<u8>::empty());
        assert(digits_value(digits(n).drop_last()) == 0);
    }
}

/// Leading zeros do not count.
proof fn lemma_zeros(z: nat, s: Seq<u8>)
    ensures
        digits_value(zeros(z) + s) == digits_value(s),
    decreases s.len(), z,
{
    if s.len() > 0 {
        assert((zeros(z) + s).drop_last() =~= zeros(z) + s.drop_last());
        lemma_zeros(z, s.drop_last());
    } else if z > 0 {
        assert((zeros(z) + s).drop_last() =~= zeros((z - 1) as nat) + s);
        lemma_zeros((z - 1) as nat, s);
    } else {
        assert(zeros(0) + s =~= s);
    }
}

/// A table is found again by the name of its file.
pub proof fn law_table_name(id: u64)
    ensures
        parse_id(table_stem(id as nat)) == Some(id),
{
    let ds = digits(id as nat);
    let stem = table_stem(id as nat);
    lemma_digits(id as nat);
    if ds.len() < MIN_DIGITS {
        let z = (MIN_DIGITS - ds.len()) as nat;
        lemma_zeros(z, ds);
        assert forall|i: int| 0 <= i < stem.len() implies 48 <= #[trigger] stem[i] <= 57 by {
            if i >= z {
                assert(stem[i] == ds[i - z]);
            }
        }
    }
    assert(48 <= stem[0] <= 57);
    assert(unsigned_digits(stem) == stem);
}

/// The number that decimal digits in ASCII stand for.
pub open spec fn number_of(s: Seq<u8>) -> int
    decreases s.len(),
{
    if s.len() == 0 {
        0
    } else {
        10 * number_of(s.drop_last()) + (s.last() - 48)
    }
}

proof fn lemma_number_of(s: Seq<u8>)
    requires
        forall|i: int| 0 <= i < s.len() ==> 48 <= #[trigger] s[i] <= 57,
    ensures
        number_of(s) == digits_value(s),
    decreases s.len(),
{
    if s.len() > 0 {
        let front = s.drop_last();
        assert forall|i: int| 0 <= i < front.len() implies 48 <= #[trigger] front[i] <= 57 by {
            assert(front[i] == s[i]);
        }
        lemma_number_of(front);
        assert(48 <= s[s.len() - 1] <= 57);
    }
}

proof fn lemma_first_digit(n: nat)
    requires
        n > 0,
    ensures
        digits(n).len() > 0,
        digits(n)[0] != 48,
    decreases n,
{
    if n >= 10 {
        lemma_first_digit(n / 10);
    }
}

/// A table's file is named by the table's number: nothing but decimal digits, six at least,
/// with zeros in front only to make up six, and then `.sst`.
pub proof fn law_table_name_form(id: u64)
    ensures
        ({
            let stem = table_stem(id as nat);
            &&& stem.len() >= 6
            &&& forall|i: int| 0 <= i < stem.len() ==> 48 <= #[trigger] stem[i] <= 57
            &&& number_of(stem) == id
            &&& stem.len() > 6 ==> stem[0] != 48
        }),
        table_extension() == seq![46u8, 115u8, 115u8, 116u8],
{
    let ds = digits(id as nat);
    let stem = table_stem(id as nat);
    law_table_name(id);
    lemma_digits(id as nat);
    if ds.len() < MIN_DIGITS {
        let z = (MIN_DIGITS - ds.len()) as nat;
        lemma_zeros(z, ds);
        assert forall|i: int| 0 <= i < stem.len() implies 48 <= #[trigger] stem[i] <= 57 by {
            if i >= z {
                assert(stem[i] == ds[i - z]);
            }
        }
    } else if id > 0 {
        lemma_first_digit(id as nat);
    }
    lemma_number_of(stem);
}

/// A name spells a number exactly when it is nothing but decimal digits, one at least, with or
/// without a plus sign in front, and the number fits into 64 bits.
pub proof fn law_parse_id(ds: Seq<u8>)
    ensures
        ds.len() > 0 && (forall|i: int| 0 <= i < ds.len() ==> 48 <= #[trigger] ds[i] <= 57)
            && number_of(ds) <= u64::MAX ==> parse_id(ds) == Some(number_of(ds) as u64) && parse_id(
            seq![43u8] + ds,
        ) == Some(number_of(ds) as u64),
        !(ds.len() > 0 && (forall|i: int| 0 <= i < ds.len() ==> 48 <= #[trigger] ds[i] <= 57)
            && number_of(ds) <= u64::MAX) ==> parse_id(seq![43u8] + ds) is None && (ds.len() == 0
            || ds[0] != 43 ==> parse_id(ds) is None),
{
    let signed = seq![43u8] + ds;
    assert(signed.skip(1) =~= ds);
    assert(unsigned_digits(signed) == ds);
    if forall|i: int| 0 <= i < ds.len() ==> 48 <= #[trigger] ds[i] <= 57 {
        lemma_number_of(ds);
        if ds.len() > 0 {
            assert(48 <= ds[0] <= 57);
        }
    }
}

} // verus!
