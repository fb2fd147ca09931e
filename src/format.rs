use vstd::prelude::*;
use vstd::string::StringExecFns;
use crate::file_data::FileData;

verus! {

/// The largest unit of size a number is shown in.
pub const LAST_UNIT: usize = 8;

pub open spec fn pow1024(u: nat) -> nat
    decreases u,
{
    if u == 0 {
        1
    } else {
        1024 * pow1024((u - 1) as nat)
    }
}

/// The unit a byte count is shown in, counting up from `u`: the largest that
/// the count reaches, and never past the last one.
pub open spec fn unit_from(bytes: nat, u: nat) -> nat
    decreases LAST_UNIT - u,
{
    if u < LAST_UNIT && bytes >= pow1024(u + 1) {
        unit_from(bytes, u + 1)
    } else {
        u
    }
}

pub open spec fn unit_name(u: nat) -> Seq<char> {
    if u == 0 {
        seq!['B', 'y', 't', 'e', 's']
    } else if u == 1 {
        seq!['K', 'B']
    } else if u == 2 {
        seq!['M', 'B']
    } else if u == 3 {
        seq!['G', 'B']
    } else if u == 4 {
        seq!['T', 'B']
    } else if u == 5 {
        seq!['P', 'B']
    } else if u == 6 {
        seq!['E', 'B']
    } else if u == 7 {
        seq!['Z', 'B']
    } else {
        seq!['Y', 'B']
    }
}

/// `n / d` rounded to the nearest integer, halves to the even neighbour.
pub open spec fn round_div(n: nat, d: nat) -> nat
    recommends
        d > 0,
{
    let q = n / d;
    let r = n % d;
    if 2 * r > d || (2 * r == d && q % 2 == 1) {
        q + 1
    } else {
        q
    }
}

pub open spec fn digit(d: nat) -> char {
    if d == 0 {
        '0'
    } else if d == 1 {
        '1'
    } else if d == 2 {
        '2'
    } else if d == 3 {
        '3'
    } else if d == 4 {
        '4'
    } else if d == 5 {
        '5'
    } else if d == 6 {
        '6'
    } else if d == 7 {
        '7'
    } else if d == 8 {
        '8'
    } else {
        '9'
    }
}

/// The decimal digits of `n`, without leading zeros.
pub open spec fn decimal(n: nat) -> Seq<char>
    decreases n,
{
    if n < 10 {
        seq![digit(n)]
    } else {
        decimal(n / 10) + seq![digit(n % 10)]
    }
}

/// A byte count as people read it: scaled by 1024 into the largest unit it
/// reaches, rounded to a whole number or to two decimals, then the unit.
pub open spec fn size_text(bytes: nat, with_decimals: bool) -> Seq<char> {
    let u = unit_from(bytes, 0);
    let d = pow1024(u);
    if with_decimals {
        let h = round_div(bytes * 100, d);
        decimal(h / 100) + seq!['.', digit((h % 100) / 10), digit(h % 10), ' '] + unit_name(u)
    } else {
        decimal(round_div(bytes, d)) + seq![' '] + unit_name(u)
    }
}

fn digit_text(d: u64) -> (r: &'static str)
    requires
        d < 10,
    ensures
        r@ == seq![digit(d as nat)],
{
    proof {
        reveal_strlit("0");
        reveal_strlit("1");
        reveal_strlit("2");
        reveal_strlit("3");
        reveal_strlit("4");
        reveal_strlit("5");
        reveal_strlit("6");
        reveal_strlit("7");
        reveal_strlit("8");
        reveal_strlit("9");
    }
    match d {
        0 => "0",
        1 => "1",
        2 => "2",
        3 => "3",
        4 => "4",
        5 => "5",
        6 => "6",
        7 => "7",
        8 => "8",
        _ => "9",
    }
}

fn unit_text(u: usize) -> (r: &'static str)
    requires
        u <= LAST_UNIT,
    ensures
        r@ == unit_name(u as nat),
{
    proof {
        reveal_strlit("Bytes");
        reveal_strlit("KB");
        reveal_strlit("MB");
        reveal_strlit("GB");
        reveal_strlit("TB");
        reveal_strlit("PB");
        reveal_strlit("EB");
        reveal_strlit("ZB");
        reveal_strlit("YB");
    }
    match u {
        0 => "Bytes",
        1 => "KB",
        2 => "MB",
        3 => "GB",
        4 => "TB",
        5 => "PB",
        6 => "EB",
        7 => "ZB",
        _ => "YB",
    }
}

fn push_decimal(out: &mut String, n: u64)
    ensures
        final(out)@ == old(out)@ + decimal(n as nat),
    decreases n,
{
    if n >= 10 {
        push_decimal(out, n / 10);
    }
    out.append(digit_text(n % 10));
}

fn rounded_quotient(n: u128, d: u128) -> (r: u128)
    requires
        d > 0,
        n < 0x1_0000_0000_0000_0000_0000_0000u128,
        d < 0x1_0000_0000_0000_0000_0000_0000u128,
    ensures
        r == round_div(n as nat, d as nat),
{
    let q = n / d;
    let rem = n % d;
    if 2 * rem > d || (2 * rem == d && q % 2 == 1) {
        q + 1
    } else {
        q
    }
}

proof fn lemma_round_div_le(n: nat, d: nat)
    requires
        d >= 1,
    ensures
        round_div(n, d) <= n,
{
    let q = n / d;
    let r = n % d;
    vstd::arithmetic::div_mod::lemma_fundamental_div_mod(n as int, d as int);
    if d >= 2 {
        assert(q * d >= q * 2) by (nonlinear_arith)
            requires
                d >= 2,
        {
        }
    }
}

proof fn lemma_pow1024_mono(a: nat, b: nat)
    requires
        a <= b,
    ensures
        pow1024(a) <= pow1024(b),
        pow1024(a) >= 1,
    decreases b,
{
    if b > 0 {
        if a < b {
            lemma_pow1024_mono(a, (b - 1) as nat);
        } else {
            lemma_pow1024_mono((a - 1) as nat, (b - 1) as nat);
        }
    }
}

/// Shows a byte count in the largest unit of 1024 that it reaches (Bytes,
/// KB, MB up to YB), rounded half to even, to two decimals where
/// `with_decimals` holds and to a whole number otherwise.
pub fn format_size(bytes: usize, with_decimals: bool) -> (r: String)
    ensures
        r@ == size_text(bytes as nat, with_decimals),
{
    let n = bytes as u128;
    let mut u: usize = 0;
    let mut d: u128 = 1;
    proof {
        lemma_pow1024_mono(0, LAST_UNIT as nat);
        reveal_with_fuel(pow1024, 10);
        assert(pow1024(9) == 1237940039285380274899124224nat);
    }
    while u < LAST_UNIT && n >= d * 1024
        invariant
            u <= LAST_UNIT,
            d == pow1024(u as nat),
            d <= 1208925819614629174706176nat,
            n == bytes,
            unit_from(bytes as nat, u as nat) == unit_from(bytes as nat, 0),
        decreases LAST_UNIT - u,
    {
        proof {
            lemma_pow1024_mono((u + 1) as nat, (LAST_UNIT + 1) as nat);
        }
        d = d * 1024;
        u = u + 1;
    }
    proof {
        lemma_pow1024_mono(u as nat, LAST_UNIT as nat);
        assert(unit_from(bytes as nat, u as nat) == u);
    }
    let mut out = String::new();
    proof {
        reveal_strlit(".");
        reveal_strlit(" ");
    }
    if with_decimals {
        let h = rounded_quotient(n * 100, d);
        proof {
            lemma_round_div_le((n * 100) as nat, d as nat);
        }
        push_decimal(&mut out, (h / 100) as u64);
        out.append(".");
        push_decimal(&mut out, ((h % 100) / 10) as u64);
        push_decimal(&mut out, (h % 10) as u64);
        out.append(" ");
        proof {
            let t = (h % 100) / 10;
            let o = h % 10;
            assert(decimal(t as nat) == seq![digit(t as nat)]);
            assert(decimal(o as nat) == seq![digit(o as nat)]);
            assert(out@ =~= decimal((h / 100) as nat) + seq!['.', digit(t as nat), digit(o as nat), ' ']);
        }
    } else {
        let h = rounded_quotient(n, d);
        proof {
            lemma_round_div_le(n as nat, d as nat);
        }
        push_decimal(&mut out, h as u64);
        out.append(" ");
        proof {
            assert(out@ =~= decimal(h as nat) + seq![' ']);
        }
    }
    let ghost before = out@;
    out.append(unit_text(u));
    proof {
        assert(out@ =~= before + unit_name(u as nat));
    }
    out
}

/// One row of the printed result: the path and the size as text.
pub struct FileDataTable {
    pub path: String,
    pub size: String,
}

impl FileDataTable {
    pub fn new(path: String, size: String) -> (r: FileDataTable)
        ensures
            r.path == path,
            r.size == size,
    {
        FileDataTable { path, size }
    }
}

/// The rows to print for a result, in its order: each path beside its size
/// shown with two decimals (as a `usize`, which holds every `u64` on the
/// 64-bit targets this runs on).
pub fn table_rows(files: &Vec<FileData>) -> (r: Vec<FileDataTable>)
    ensures
        r@.len() == files@.len(),
        forall|i: int|
            0 <= i < r@.len() ==> (#[trigger] r@[i]).path == files@[i].path && r@[i].size@ == size_text(
                (files@[i].size as usize) as nat,
                true,
            ),
{
    let mut rows: Vec<FileDataTable> = Vec::new();
    let mut i: usize = 0;
    while i < files.len()
        invariant
            i <= files@.len(),
            rows@.len() == i,
            forall|j: int|
                0 <= j < i ==> (#[trigger] rows@[j]).path == files@[j].path && rows@[j].size@ == size_text(
                    (files@[j].size as usize) as nat,
                    true,
                ),
        decreases files@.len() - i,
    {
        let f = &files[i];
        rows.push(FileDataTable::new(f.path.clone(), format_size(f.size as usize, true)));
        i = i + 1;
    }
    rows
}

} // verus!
