//! The unit in which a byte count is reported.
use vstd::prelude::*;
use crate::renumber::{decimal, decimal_chars};
use crate::text::string_of;

verus! {

/// Binary units of 1024, 1024² and 1024³ bytes.
#[derive(Clone, Copy, Debug, PartialEq, Eq, Structural)]
pub enum SizeUnit {
    Bytes,
    Kilobytes,
    Megabytes,
    Gigabytes,
}

pub open spec fn spec_size_unit(bytes: u64) -> SizeUnit {
    if bytes >= 1024 * 1024 * 1024 {
        SizeUnit::Gigabytes
    } else if bytes >= 1024 * 1024 {
        SizeUnit::Megabytes
    } else if bytes >= 1024 {
        SizeUnit::Kilobytes
    } else {
        SizeUnit::Bytes
    }
}

/// The largest unit that does not exceed the count.
pub fn size_unit(bytes: u64) -> (u: SizeUnit)
    ensures
        u == spec_size_unit(bytes),
{
    let kb: u64 = 1024;
    let mb: u64 = 1024 * kb;
    let gb: u64 = 1024 * mb;
    if bytes >= gb {
        SizeUnit::Gigabytes
    } else if bytes >= mb {
        SizeUnit::Megabytes
    } else if bytes >= kb {
        SizeUnit::Kilobytes
    } else {
        SizeUnit::Bytes
    }
}

impl SizeUnit {
    /// The number of bytes in one unit.
    pub fn divisor(&self) -> (d: u64)
        ensures
            d == match *self {
                SizeUnit::Bytes => 1,
                SizeUnit::Kilobytes => 1024,
                SizeUnit::Megabytes => 1024 * 1024,
                SizeUnit::Gigabytes => 1024 * 1024 * 1024,
            },
    {
        match *self {
            SizeUnit::Bytes => 1,
            SizeUnit::Kilobytes => 1024,
            SizeUnit::Megabytes => 1024 * 1024,
            SizeUnit::Gigabytes => 1024 * 1024 * 1024,
        }
    }

    /// The symbol printed after a count in this unit.
    pub fn symbol(&self) -> (s: &'static str)
        ensures
            s@ == match *self {
                SizeUnit::Bytes => "B"@,
                SizeUnit::Kilobytes => "KB"@,
                SizeUnit::Megabytes => "MB"@,
                SizeUnit::Gigabytes => "GB"@,
            },
    {
        match *self {
            SizeUnit::Bytes => "B",
            SizeUnit::Kilobytes => "KB",
            SizeUnit::Megabytes => "MB",
            SizeUnit::Gigabytes => "GB",
        }
    }
}

/// A count shown in bytes (the unit of counts below one kilobyte): its
/// decimal digits, a space and `B`.
pub fn byte_count_text(bytes: u64) -> (r: String)
    ensures
        r@ == decimal(bytes as nat) + seq![' ', 'B'],
{
    let mut v = decimal_chars(bytes);
    v.push(' ');
    v.push('B');
    string_of(v.as_slice())
}

/// A count shown in its unit is at least one unit, and below 1024 units
/// unless the unit is the largest.
pub proof fn law_size_unit_range(bytes: u64)
    ensures
        ({
            let d: int = match spec_size_unit(bytes) {
                SizeUnit::Bytes => 1int,
                SizeUnit::Kilobytes => 1024int,
                SizeUnit::Megabytes => 1048576int,
                SizeUnit::Gigabytes => 1073741824int,
            };
            &&& spec_size_unit(bytes) != SizeUnit::Bytes ==> d <= bytes
            &&& spec_size_unit(bytes) != SizeUnit::Gigabytes ==> bytes < 1024 * d
        }),
{
}

} // verus!
