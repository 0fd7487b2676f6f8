//! Reading the page-fault count out of a process status line: the fields are
//! separated by single spaces; the tenth holds the minor faults and the
//! twelfth the major ones.
use vstd::prelude::*;

verus! {

/// The byte that separates fields.
pub const SEPARATOR: u8 = 32;

/// Position of the minor-fault field.
pub const MINOR_FAULTS_FIELD: usize = 9;

/// Position of the major-fault field.
pub const MAJOR_FAULTS_FIELD: usize = 11;

/// `s` cut at every separator; empty fields are kept, so there is always
/// one more field than separators.
pub open spec fn fields(s: Seq<u8>) -> Seq<Seq<u8>>
    decreases s.len(),
{
    if s.len() == 0 {
        seq![Seq::empty()]
    } else {
        let f = fields(s.drop_last());
        if s.last() == SEPARATOR {
            f.push(Seq::empty())
        } else {
            f.update(f.len() - 1, f.last().push(s.last()))
        }
    }
}

pub open spec fn is_digit(b: u8) -> bool {
    48 <= b <= 57
}

pub open spec fn all_digits(d: Seq<u8>) -> bool {
    forall|i: int| 0 <= i < d.len() ==> is_digit(#[trigger] d[i])
}

/// The number that the ASCII digits `d` write in base ten.
pub open spec fn decimal_value(d: Seq<u8>) -> int
    decreases d.len(),
{
    if d.len() == 0 {
        0
    } else {
        decimal_value(d.drop_last()) * 10 + (d.last() - 48)
    }
}

/// A field read as a count: one or more digits whose value fits a `u64`.
pub open spec fn parsed_count(f: Seq<u8>) -> Option<u64> {
    if f.len() > 0 && all_digits(f) && decimal_value(f) <= u64::MAX {
        Some(decimal_value(f) as u64)
    } else {
        None
    }
}

/// Minor plus major faults of the status line `s`, when both fields are
/// there and are counts and their sum fits a `u64`.
pub open spec fn page_fault_count(s: Seq<u8>) -> Option<u64> {
    let f = fields(s);
    if f.len() > MAJOR_FAULTS_FIELD {
        match (parsed_count(f[MINOR_FAULTS_FIELD as int]), parsed_count(f[MAJOR_FAULTS_FIELD as int])) {
            (Some(a), Some(b)) => if a + b <= u64::MAX {
                Some((a + b) as u64)
            } else {
                None
            },
            _ => None,
        }
    } else {
        None
    }
}

proof fn lemma_decimal_nonneg(d: Seq<u8>)
    requires
        all_digits(d),
    ensures
        decimal_value(d) >= 0,
    decreases d.len(),
{
    if d.len() > 0 {
        assert(all_digits(d.drop_last())) by {
            assert forall|i: int| 0 <= i < d.drop_last().len() implies is_digit(#[trigger] d.drop_last()[i]) by {
                assert(d.drop_last()[i] == d[i]);
            }
        }
        lemma_decimal_nonneg(d.drop_last());
        assert(is_digit(d[d.len() - 1]));
    }
}

/// The count that a finished field gives.
fn field_count(ok: bool, nonempty: bool, value: u64) -> (r: Option<u64>)
    ensures
        r == (if ok && nonempty { Some(value) } else { None }),
{
    if ok && nonempty {
        Some(value)
    } else {
        None
    }
}

/// Get the page faults (minor plus major) from the bytes of a process
/// status line.
pub fn parse_page_faults(stat: &[u8]) -> (r: Option<u64>)
    ensures
        r == page_fault_count(stat@),
{
    let mut field: usize = 0;
    let mut ok = true;
    let mut nonempty = false;
    let mut value: u64 = 0;
    let mut minor: Option<u64> = None;
    let mut major: Option<u64> = None;
    let mut k: usize = 0;
    while k < stat.len()
        invariant
            k <= stat@.len(),
            field <= k,
            fields(stat@.take(k as int)).len() == field + 1,
            ok == (all_digits(fields(stat@.take(k as int))[field as int]) && decimal_value(
                fields(stat@.take(k as int))[field as int],
            ) <= u64::MAX),
            ok ==> value == decimal_value(fields(stat@.take(k as int))[field as int]),
            nonempty == (fields(stat@.take(k as int))[field as int].len() > 0),
            field > MINOR_FAULTS_FIELD ==> minor == parsed_count(
                fields(stat@.take(k as int))[MINOR_FAULTS_FIELD as int],
            ),
            field > MAJOR_FAULTS_FIELD ==> major == parsed_count(
                fields(stat@.take(k as int))[MAJOR_FAULTS_FIELD as int],
            ),
        decreases stat@.len() - k,
    {
        let ghost f0 = fields(stat@.take(k as int));
        let ghost cur = f0[field as int];
        let b = stat[k];
        assert(stat@.take(k + 1).drop_last() =~= stat@.take(k as int));
        assert(stat@.take(k + 1).last() == b);
        if b == SEPARATOR {
            if field == MINOR_FAULTS_FIELD {
                minor = field_count(ok, nonempty, value);
            }
            if field == MAJOR_FAULTS_FIELD {
                major = field_count(ok, nonempty, value);
            }
            field = field + 1;
            ok = true;
            nonempty = false;
            value = 0;
            assert(fields(stat@.take(k + 1)) == f0.push(Seq::<u8>::empty()));
            assert(all_digits(Seq::<u8>::empty()));
        } else {
            let ghost next = cur.push(b);
            assert(fields(stat@.take(k + 1)) == f0.update(field as int, next));
            assert(next.drop_last() =~= cur);
            assert(next.last() == b);
            if ok && 48 <= b && b <= 57 {
                let wide = value as u128 * 10 + (b - 48) as u128;
                if wide <= u64::MAX as u128 {
                    value = wide as u64;
                } else {
                    ok = false;
                }
                assert(all_digits(next)) by {
                    assert forall|i: int| 0 <= i < next.len() implies is_digit(#[trigger] next[i]) by {
                        if i < cur.len() {
                            assert(next[i] == cur[i]);
                        }
                    }
                }
            } else {
                proof {
                    if ok {
                        assert(!is_digit(next[next.len() - 1]));
                    } else if all_digits(next) {
                        assert(all_digits(cur)) by {
                            assert forall|i: int| 0 <= i < cur.len() implies is_digit(#[trigger] cur[i]) by {
                                assert(next[i] == cur[i]);
                            }
                        }
                        lemma_decimal_nonneg(cur);
                        assert(decimal_value(next) >= decimal_value(cur));
                    }
                }
                ok = false;
            }
            nonempty = true;
        }
        k = k + 1;
    }
    assert(stat@.take(stat@.len() as int) =~= stat@);
    if field == MINOR_FAULTS_FIELD {
        minor = field_count(ok, nonempty, value);
    }
    if field == MAJOR_FAULTS_FIELD {
        major = field_count(ok, nonempty, value);
    }
    if field < MAJOR_FAULTS_FIELD {
        return None;
    }
    match (minor, major) {
        (Some(a), Some(b)) => a.checked_add(b),
        _ => None,
    }
}

} // verus!
