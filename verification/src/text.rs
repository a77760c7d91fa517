//! The wording of findings.

use vstd::prelude::*;
use vstd::string::*;

verus! {

/// The character of a decimal digit.
pub open spec fn digit_char(d: nat) -> char {
    if d == 0 {
        '0'
    } else if d == 1 {
        '1'
    } else if d == 2 {
        '2'
    } else if d == 3 {
        '3'
    } else if d == 4 {
        '4'
    } else if d == 5 {
        '5'
    } else if d == 6 {
        '6'
    } else if d == 7 {
        '7'
    } else if d == 8 {
        '8'
    } else {
        '9'
    }
}

/// The decimal digits of `n`, most significant first, without leading zeros.
pub open spec fn decimal_text(n: nat) -> Seq<char>
    decreases n,
{
    if n < 10 {
        seq![digit_char(n)]
    } else {
        decimal_text(n / 10).push(digit_char(n % 10))
    }
}

fn digit_str(d: u32) -> (s: &'static str)
    requires
        d < 10,
    ensures
        s@ == seq![digit_char(d as nat)],
{
    proof {
        reveal_strlit("0");
        reveal_strlit("1");
        reveal_strlit("2");
        reveal_strlit("3");
        reveal_strlit("4");
        reveal_strlit("5");
        reveal_strlit("6");
        reveal_strlit("7");
        reveal_strlit("8");
        reveal_strlit("9");
    }
    let s = match d {
        0 => "0",
        1 => "1",
        2 => "2",
        3 => "3",
        4 => "4",
        5 => "5",
        6 => "6",
        7 => "7",
        8 => "8",
        _ => "9",
    };
    assert(s@ =~= seq![digit_char(d as nat)]);
    s
}

/// Writes `n` in decimal.
pub fn decimal(n: u32) -> (s: String)
    ensures
        s@ == decimal_text(n as nat),
    decreases n,
{
    if n < 10 {
        String::from_str(digit_str(n))
    } else {
        let mut s = decimal(n / 10);
        s.append(digit_str(n % 10));
        assert(s@ =~= decimal_text(n as nat));
        s
    }
}

/// What is said of two overlapping sessions of one lecturer.
pub open spec fn lecturer_conflict_text(id_dosen: u32) -> Seq<char> {
    "Konflik dosen yang sama: dosen "@ + decimal_text(id_dosen as nat)
        + " di dua kelas berbeda."@
}

/// What is said of two overlapping sessions of one class.
pub open spec fn class_conflict_text(id_kelas: u32) -> Seq<char> {
    "Konflik kelas yang sama: kelas "@ + decimal_text(id_kelas as nat)
        + " di dua jadwal bersamaan."@
}

/// The name of a weekday.
pub open spec fn weekday_name(hari: u32) -> Seq<char> {
    if hari == 1 {
        "Senin"@
    } else if hari == 2 {
        "Selasa"@
    } else if hari == 3 {
        "Rabu"@
    } else if hari == 4 {
        "Kamis"@
    } else if hari == 5 {
        "Jumat"@
    } else {
        "Hari Tidak Dikenal"@
    }
}

/// The name of the half of the day in which a session starts.
pub open spec fn session_name(start: u32) -> Seq<char> {
    if start < crate::preferences::EVENING_FROM {
        "pagi"@
    } else {
        "malam"@
    }
}

/// What is said of a session that its lecturer does not tolerate.
pub open spec fn preference_text(id_dosen: u32, hari: u32, start: u32) -> Seq<char> {
    "Dosen "@ + decimal_text(id_dosen as nat) + " tidak prefer jadwal "@ + weekday_name(hari)
        + " "@ + session_name(start) + "."@
}

/// Words a conflict of one lecturer.
pub fn describe_lecturer_conflict(id_dosen: u32) -> (s: String)
    ensures
        s@ == lecturer_conflict_text(id_dosen),
{
    let mut s = String::from_str("Konflik dosen yang sama: dosen ");
    let digits = decimal(id_dosen);
    s.append(digits.as_str());
    s.append(" di dua kelas berbeda.");
    s
}

/// Words a conflict of one class.
pub fn describe_class_conflict(id_kelas: u32) -> (s: String)
    ensures
        s@ == class_conflict_text(id_kelas),
{
    let mut s = String::from_str("Konflik kelas yang sama: kelas ");
    let digits = decimal(id_kelas);
    s.append(digits.as_str());
    s.append(" di dua jadwal bersamaan.");
    s
}

/// Words a session that its lecturer does not tolerate.
pub fn describe_preference(id_dosen: u32, hari: u32, start: u32) -> (s: String)
    ensures
        s@ == preference_text(id_dosen, hari, start),
{
    let day = match hari {
        1 => "Senin",
        2 => "Selasa",
        3 => "Rabu",
        4 => "Kamis",
        5 => "Jumat",
        _ => "Hari Tidak Dikenal",
    };
    let session = if start < crate::preferences::EVENING_FROM {
        "pagi"
    } else {
        "malam"
    };
    let mut s = String::from_str("Dosen ");
    let digits = decimal(id_dosen);
    s.append(digits.as_str());
    s.append(" tidak prefer jadwal ");
    s.append(day);
    s.append(" ");
    s.append(session);
    s.append(".");
    s
}

} // verus!
