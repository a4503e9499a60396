use vstd::prelude::*;

verus! {

/// Whether `year` is a leap year of the Gregorian calendar: divisible by 4
/// and not by 100, or divisible by 400.
pub fn is_leap(year: i32) -> (b: bool)
    ensures
        b == ((year % 4 == 0 && year % 100 != 0) || year % 400 == 0),
{
    (year % 4 == 0 && year % 100 != 0) || year % 400 == 0
}

} // verus!
