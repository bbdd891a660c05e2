//! Human-readable renderings of timestamps and byte sizes.
use vstd::prelude::*;
use crate::text::{dec, digits, pad_left, push_chars, push_dec, push_digits, push_str, string_from_chars};

verus! {

/// Seconds since the Unix epoch.
#[derive(Debug, Clone, Copy, PartialEq, Eq, Default)]
pub struct Timestamp(pub i64);

/// A size in bytes.
#[derive(Debug, Clone, Copy, PartialEq, Eq, Default)]
pub struct Size(pub u64);

/// The proleptic Gregorian date (year, month, day) of the day `days` after
/// 1970-01-01 (the civil-from-days algorithm on 400-year eras).
pub open spec fn civil_from_days(days: int) -> (int, int, int) {
    let z = days + 719468;
    let era = z / 146097;
    let doe = z - era * 146097;
    let yoe = (doe - doe / 1460 + doe / 36524 - doe / 146096) / 365;
    let doy = doe - (365 * yoe + yoe / 4 - yoe / 100);
    let mp = (5 * doy + 2) / 153;
    let d = doy - (153 * mp + 2) / 5 + 1;
    let m = if mp < 10 {
        mp + 3
    } else {
        mp - 9
    };
    let y = yoe + era * 400;
    (if m <= 2 {
        y + 1
    } else {
        y
    }, m, d)
}

/// `v` in decimal, with a leading `-` when negative.
pub open spec fn signed_dec(v: int) -> Seq<char> {
    if v < 0 {
        seq!['-'] + dec((-v) as nat)
    } else {
        dec(v as nat)
    }
}

/// The rendering of a timestamp: `YYYY-MM-DD  HH:MM:SS UTC`, the year and
/// hour padded with spaces to 4 and 2 characters, the rest with zeros.
pub open spec fn timestamp_text(t: int) -> Seq<char> {
    let days = t / 86400;
    let secs = t % 86400;
    let (y, m, d) = civil_from_days(days);
    pad_left(signed_dec(y as i32 as int), 4, ' ') + seq!['-'] + pad_left(dec(m as nat), 2, '0')
        + seq!['-'] + pad_left(dec(d as nat), 2, '0') + seq![' ', ' '] + pad_left(
        dec((secs / 3600) as nat),
        2,
        ' ',
    ) + seq![':'] + pad_left(dec((secs % 3600 / 60) as nat), 2, '0') + seq![':'] + pad_left(
        dec((secs % 60) as nat),
        2,
        '0',
    ) + seq![' ', 'U', 'T', 'C']
}

fn floor_div(a: i64, k: i64) -> (r: (i64, i64))
    requires
        k >= 2,
    ensures
        r.0 == a / k,
        r.1 == a % k,
{
    if a >= 0 {
        (a / k, a % k)
    } else {
        let m = -(a + 1);
        let qm = m / k;
        let rm = m % k;
        proof {
            vstd::arithmetic::div_mod::lemma_fundamental_div_mod(m as int, k as int);
            let (mi, ki, qi, ri, ai) = (m as int, k as int, qm as int, rm as int, a as int);
            assert(ai == (-qi - 1) * ki + (ki - 1 - ri)) by (nonlinear_arith)
                requires
                    mi == ki * qi + ri,
                    ai == -mi - 1,
            ;
            vstd::arithmetic::div_mod::lemma_fundamental_div_mod_converse(
                a as int,
                k as int,
                -qm - 1,
                k - 1 - rm,
            );
        }
        (-qm - 1, k - 1 - rm)
    }
}

/// The calendar date of day `days` after 1970-01-01.
pub fn days_to_ymd(days: i64) -> (r: (i32, u32, u32))
    requires
        -0x10_0000_0000_0000 <= days <= 0x10_0000_0000_0000,
    ensures
        r.0 as int == civil_from_days(days as int).0 as i32 as int,
        r.1 as int == civil_from_days(days as int).1,
        r.2 as int == civil_from_days(days as int).2,
{
    let z = days + 719468;
    let (era, doe0) = floor_div(z, 146097);
    let doe = doe0 as u32;
    let yoe = (doe - doe / 1460 + doe / 36524 - doe / 146096) / 365;
    proof {
        assert(doe < 146097);
        assert(yoe <= 400) by (nonlinear_arith)
            requires
                yoe == (doe - doe / 1460 + doe / 36524 - doe / 146096) / 365,
                doe < 146097,
        ;
        assert(365 * yoe + yoe / 4 - yoe / 100 <= doe) by (nonlinear_arith)
            requires
                yoe == (doe - doe / 1460 + doe / 36524 - doe / 146096) / 365,
                doe < 146097,
        ;
    }
    let y = yoe as i64 + era * 400;
    let doy = doe - (365 * yoe + yoe / 4 - yoe / 100);
    proof {
        assert(doy <= 365) by (nonlinear_arith)
            requires
                yoe == (doe - doe / 1460 + doe / 36524 - doe / 146096) / 365,
                doe < 146097,
                doy == doe - (365 * yoe + yoe / 4 - yoe / 100),
        ;
    }
    let mp = (5 * doy + 2) / 153;
    proof {
        assert((153 * mp + 2) / 5 <= doy) by (nonlinear_arith)
            requires
                mp == (5 * doy + 2) / 153,
                doy <= 365,
        ;
        assert(mp <= 11) by (nonlinear_arith)
            requires
                mp == (5 * doy + 2) / 153,
                doy <= 365,
        ;
    }
    let d = doy - (153 * mp + 2) / 5 + 1;
    let m = if mp < 10 {
        mp + 3
    } else {
        mp - 9
    };
    let y = if m <= 2 {
        y + 1
    } else {
        y
    };
    (y as i32, m, d)
}

fn push_padded(out: &mut Vec<char>, s: &[char], width: usize, fill: char)
    ensures
        final(out)@ == old(out)@ + pad_left(s@, width as nat, fill),
{
    let ghost start = out@;
    if s.len() < width {
        let mut k: usize = 0;
        while k < width - s.len()
            invariant
                s@.len() < width,
                k <= width - s@.len(),
                out@ == start + Seq::new(k as nat, |_i: int| fill),
            decreases width - s@.len() - k,
        {
            out.push(fill);
            k += 1;
            assert(out@ =~= start + Seq::new(k as nat, |_i: int| fill));
        }
    }
    push_chars(out, s);
    assert(out@ =~= start + pad_left(s@, width as nat, fill));
}

fn push_signed(out: &mut Vec<char>, v: i32, width: usize)
    ensures
        final(out)@ == old(out)@ + pad_left(signed_dec(v as int), width as nat, ' '),
{
    let mut t: Vec<char> = Vec::new();
    if v < 0 {
        t.push('-');
        let a = (-(v as i64)) as u64;
        push_dec(&mut t, a);
    } else {
        push_dec(&mut t, v as u64);
    }
    push_padded(out, t.as_slice(), width, ' ');
}

impl Timestamp {
    /// The rendering of the timestamp, e.g. `2009-02-13  23:31:30 UTC`.
    #[verifier::rlimit(40)]
    pub fn to_string(&self) -> (s: String)
        ensures
            s@ == timestamp_text(self.0 as int),
    {
        let (days, secs) = floor_div(self.0, 86400);
        proof {
            assert(-0x10_0000_0000_0000 <= days <= 0x10_0000_0000_0000) by (nonlinear_arith)
                requires
                    days == (self.0 as int) / 86400,
                    i64::MIN <= self.0 <= i64::MAX,
            ;
        }
        let (y, m, d) = days_to_ymd(days);
        let mut out: Vec<char> = Vec::new();
        push_signed(&mut out, y, 4);
        out.push('-');
        push_digits(&mut out, m as u64, 10, 2, '0');
        out.push('-');
        push_digits(&mut out, d as u64, 10, 2, '0');
        out.push(' ');
        out.push(' ');
        push_digits(&mut out, (secs / 3600) as u64, 10, 2, ' ');
        out.push(':');
        push_digits(&mut out, (secs % 3600 / 60) as u64, 10, 2, '0');
        out.push(':');
        push_digits(&mut out, (secs % 60) as u64, 10, 2, '0');
        out.push(' ');
        out.push('U');
        out.push('T');
        out.push('C');
        let ghost t = timestamp_text(self.0 as int);
        assert(out@ =~= t);
        string_from_chars(out.as_slice())
    }
}

/// The binary unit of rank `k` (0: KiB up to 5: EiB).
pub open spec fn unit_name(k: int) -> Seq<char> {
    if k == 0 {
        seq!['K', 'i', 'B']
    } else if k == 1 {
        seq!['M', 'i', 'B']
    } else if k == 2 {
        seq!['G', 'i', 'B']
    } else if k == 3 {
        seq!['T', 'i', 'B']
    } else if k == 4 {
        seq!['P', 'i', 'B']
    } else {
        seq!['E', 'i', 'B']
    }
}

/// The size of the binary unit of rank `k`: 2 to the power 10 (k + 1).
pub open spec fn unit_threshold(k: int) -> int {
    if k == 0 {
        0x400
    } else if k == 1 {
        0x10_0000
    } else if k == 2 {
        0x4000_0000
    } else if k == 3 {
        0x100_0000_0000
    } else if k == 4 {
        0x4_0000_0000_0000
    } else {
        0x1000_0000_0000_0000
    }
}

/// `n` in the largest binary unit it reaches, to one decimal rounded half
/// up (the decimal left out when it is 0); `n Bytes` below 1 KiB.
pub open spec fn size_in_unit(n: nat) -> Seq<char> {
    size_from_unit(n, 5)
}

/// `n` in unit `k` or a smaller one.
pub open spec fn size_from_unit(n: nat, k: int) -> Seq<char>
    decreases k + 1,
{
    if k < 0 {
        dec(n) + seq![' ', 'B', 'y', 't', 'e', 's']
    } else {
        let th = unit_threshold(k);
        let ni = n as int;
        if ni >= th {
            let whole = ni / th;
            let frac = ((ni % th) * 10 + th / 2) / th;
            let (w, f) = if frac >= 10 {
                (whole + 1, frac - 10)
            } else {
                (whole, frac)
            };
            if f > 0 {
                dec(w as nat) + seq!['.'] + dec(f as nat) + seq![' '] + unit_name(k)
            } else {
                dec(w as nat) + seq![' '] + unit_name(k)
            }
        } else {
            size_from_unit(n, k - 1)
        }
    }
}

/// The rendering of a size: the byte count, then the size in a readable
/// unit.
pub open spec fn size_text(n: nat) -> Seq<char> {
    dec(n) + seq![' ', 'B', 'y', 't', 'e', 's', ' ', '=', ' '] + size_in_unit(n)
}

impl Size {
    /// The rendering of the size, e.g. `3891 Bytes = 3.8 KiB`.
    pub fn to_string(&self) -> (s: String)
        ensures
            s@ == size_text(self.0 as nat),
    {
        let size = self.0;
        let mut out: Vec<char> = Vec::new();
        push_dec(&mut out, size);
        push_str(&mut out, " Bytes = ");
        proof {
            reveal_strlit(" Bytes = ");
        }
        let ghost prefix = out@;
        assert(prefix =~= dec(size as nat) + seq![' ', 'B', 'y', 't', 'e', 's', ' ', '=', ' ']);
        let units: [char; 6] = ['E', 'P', 'T', 'G', 'M', 'K'];
        let thresholds: [u64; 6] = [
            0x1000_0000_0000_0000,
            0x4_0000_0000_0000,
            0x100_0000_0000,
            0x4000_0000,
            0x10_0000,
            0x400,
        ];
        let mut k: usize = 0;
        while k < 6
            invariant
                k <= 6,
                size == self.0,
                units@ == seq!['E', 'P', 'T', 'G', 'M', 'K'],
                forall|j: int| 0 <= j < 6 ==> #[trigger] thresholds@[j] == unit_threshold(5 - j),
                out@ == prefix,
                prefix == dec(size as nat) + seq![' ', 'B', 'y', 't', 'e', 's', ' ', '=', ' '],
                size_in_unit(size as nat) == size_from_unit(size as nat, 5 - k as int),
            decreases 6 - k,
        {
            let threshold = thresholds[k];
            proof {
                assert(thresholds@[k as int] == unit_threshold(5 - k as int));
                assert(unit_name(5 - k as int) == seq![units@[k as int], 'i', 'B']);
            }
            if size >= threshold {
                let whole = size / threshold;
                proof {
                    let r = (size % threshold) as int;
                    assert(r < threshold);
                    assert(r * 10 + threshold / 2 < 0x1_0000_0000_0000_0000) by (nonlinear_arith)
                        requires
                            r < threshold,
                            threshold <= 0x1000_0000_0000_0000,
                            r >= 0,
                    ;
                    assert(whole < 0x1_0000_0000_0000_0000 - 1) by (nonlinear_arith)
                        requires
                            whole == size / threshold,
                            threshold >= 0x400,
                            size < 0x1_0000_0000_0000_0000,
                    ;
                }
                let frac = ((size % threshold) * 10 + threshold / 2) / threshold;
                let (w, f) = if frac >= 10 {
                    (whole + 1, frac - 10)
                } else {
                    (whole, frac)
                };
                push_dec(&mut out, w);
                if f > 0 {
                    out.push('.');
                    push_dec(&mut out, f);
                }
                out.push(' ');
                out.push(units[k]);
                out.push('i');
                out.push('B');
                proof {
                    let n = size as nat;
                    let kk = 5 - k as int;
                    assert(unit_threshold(kk) == threshold as int);
                    let th = threshold as int;
                    assert(whole as int == (n as int) / th);
                    assert(frac as int == (((n as int) % th) * 10 + th / 2) / th);
                    let tail = if f > 0 {
                        dec(w as nat) + seq!['.'] + dec(f as nat) + seq![' '] + unit_name(kk)
                    } else {
                        dec(w as nat) + seq![' '] + unit_name(kk)
                    };
                    assert(size_from_unit(n, kk) == tail);
                    assert(out@ =~= prefix + tail);
                    assert(out@ == size_text(n));
                }
                return string_from_chars(out.as_slice());
            }
            k += 1;
        }
        push_dec(&mut out, size);
        push_str(&mut out, " Bytes");
        proof {
            reveal_strlit(" Bytes");
            assert(out@ =~= size_text(size as nat));
        }
        string_from_chars(out.as_slice())
    }
}

} // verus!
