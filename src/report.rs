use vstd::prelude::*;
use vstd::string::StringExecFns;
use crate::section::{Section, SectionView};

verus! {

/// What `{:?}` writes for a string: the text in double quotes, with escapes.
pub uninterp spec fn debug_quoted(s: Seq<char>) -> Seq<char>;

/// Relies on `<str as Debug>::fmt`, reached through `format!("{:?}")`: it writes
/// the quoted and escaped form of the characters, which depends on them alone.
#[verifier::external_body]
fn quoted(s: &str) -> (r: String)
    ensures
        r@ == debug_quoted(s@),
{
    format!("{:?}", s)
}

/// The character of decimal digit `d`.
pub open spec fn digit_char(d: nat) -> char {
    if d == 0 { '0' }
    else if d == 1 { '1' }
    else if d == 2 { '2' }
    else if d == 3 { '3' }
    else if d == 4 { '4' }
    else if d == 5 { '5' }
    else if d == 6 { '6' }
    else if d == 7 { '7' }
    else if d == 8 { '8' }
    else { '9' }
}

/// The decimal digits of `n`, most significant first, without leading zeros.
pub open spec fn decimal(n: nat) -> Seq<char>
    decreases n,
{
    if n < 10 {
        seq![digit_char(n)]
    } else {
        decimal(n / 10).push(digit_char(n % 10))
    }
}

/// `s` right-aligned in a field three characters wide.
pub open spec fn pad3(s: Seq<char>) -> Seq<char> {
    if s.len() < 3 {
        Seq::new((3 - s.len()) as nat, |_i: int| ' ') + s
    } else {
        s
    }
}

/// One line of a failure report: `  0) "label" at file:line`, where the label
/// is given already quoted.
pub open spec fn line_text(index: nat, quoted_name: Seq<char>, file: Seq<char>, line: nat) -> Seq<char> {
    pad3(decimal(index)) + seq![')', ' '] + quoted_name + seq![' ', 'a', 't', ' '] + file + seq![':']
        + decimal(line) + seq!['\n']
}

/// The lines that report `secs`, numbered from zero.
pub open spec fn report_lines(secs: Seq<SectionView>) -> Seq<char>
    decreases secs.len(),
{
    if secs.len() == 0 {
        Seq::empty()
    } else {
        let s = secs.last();
        report_lines(secs.drop_last()) + line_text(
            (secs.len() - 1) as nat,
            debug_quoted(s.0),
            s.1,
            s.2 as nat,
        )
    }
}

pub open spec fn report_header() -> Seq<char> {
    "---- the failure was inside these sections ----\n"@
}

/// The report of a pass that aborted while the sections `secs` were running,
/// outermost first: nothing when no section was running.
pub open spec fn report_text(secs: Seq<SectionView>) -> Seq<char> {
    if secs.len() == 0 {
        Seq::empty()
    } else {
        report_header() + report_lines(secs)
    }
}

proof fn lemma_decimal_len(n: nat)
    ensures
        n < 10 ==> decimal(n).len() == 1,
        10 <= n < 100 ==> decimal(n).len() == 2,
        100 <= n ==> decimal(n).len() >= 3,
    decreases n,
{
    if n >= 10 {
        lemma_decimal_len(n / 10);
    }
}

fn digit_str(d: u64) -> (s: &'static str)
    requires
        d < 10,
    ensures
        s@ == seq![digit_char(d as nat)],
{
    if d == 0 {
        proof { reveal_strlit("0"); }
        "0"
    } else if d == 1 {
        proof { reveal_strlit("1"); }
        "1"
    } else if d == 2 {
        proof { reveal_strlit("2"); }
        "2"
    } else if d == 3 {
        proof { reveal_strlit("3"); }
        "3"
    } else if d == 4 {
        proof { reveal_strlit("4"); }
        "4"
    } else if d == 5 {
        proof { reveal_strlit("5"); }
        "5"
    } else if d == 6 {
        proof { reveal_strlit("6"); }
        "6"
    } else if d == 7 {
        proof { reveal_strlit("7"); }
        "7"
    } else if d == 8 {
        proof { reveal_strlit("8"); }
        "8"
    } else {
        proof { reveal_strlit("9"); }
        "9"
    }
}

/// Appends the decimal digits of `n` to `out`.
fn push_decimal(out: &mut String, n: u64)
    ensures
        final(out)@ == old(out)@ + decimal(n as nat),
    decreases n,
{
    if n < 10 {
        out.append(digit_str(n));
    } else {
        push_decimal(out, n / 10);
        out.append(digit_str(n % 10));
        assert(final(out)@ =~= old(out)@ + decimal(n as nat));
    }
}

/// One line of a failure report, for the section with rank `index`, whose
/// label is given in the quoted form that `{:?}` writes.
pub fn report_line(index: usize, quoted_name: &str, file: &str, line: u32) -> (r: String)
    ensures
        r@ == line_text(index as nat, quoted_name@, file@, line as nat),
{
    let mut out = String::new();
    let pad: usize = if index < 10 { 2 } else if index < 100 { 1 } else { 0 };
    proof {
        lemma_decimal_len(index as nat);
    }
    let mut k: usize = 0;
    while k < pad
        invariant
            k <= pad,
            out@ =~= Seq::new(k as nat, |_i: int| ' '),
        decreases pad - k,
    {
        proof { reveal_strlit(" "); }
        out.append(" ");
        k = k + 1;
    }
    proof { reveal_strlit(") "); reveal_strlit(" at "); reveal_strlit(":"); reveal_strlit("\n"); }
    push_decimal(&mut out, index as u64);
    out.append(") ");
    out.append(quoted_name);
    out.append(" at ");
    out.append(file);
    out.append(":");
    push_decimal(&mut out, line as u64);
    out.append("\n");
    assert(out@ =~= line_text(index as nat, quoted_name@, file@, line as nat));
    out
}

/// The report for a pass that aborted while `secs` were running, given in
/// the order of their ranks.
pub fn failure_report(secs: &Vec<Section>) -> (r: String)
    ensures
        r@ == report_text(secs@.map_values(|s: Section| s@)),
{
    let ghost sv = secs@.map_values(|s: Section| s@);
    let n = secs.len();
    if n == 0 {
        return String::new();
    }
    let mut out = String::new();
    out.append("---- the failure was inside these sections ----\n");
    let mut i: usize = 0;
    while i < n
        invariant
            n == secs@.len(),
            i <= n,
            sv == secs@.map_values(|s: Section| s@),
            out@ == report_header() + report_lines(sv.take(i as int)),
        decreases n - i,
    {
        let s = &secs[i];
        let q = quoted(s.name.as_str());
        let l = report_line(i, q.as_str(), s.file.as_str(), s.line);
        out.append(l.as_str());
        proof {
            assert(sv.take(i as int + 1).drop_last() =~= sv.take(i as int));
            assert(sv.take(i as int + 1).last() == sv[i as int]);
            assert(out@ =~= report_header() + report_lines(sv.take(i as int + 1)));
        }
        i = i + 1;
    }
    assert(sv.take(n as int) =~= sv);
    out
}

} // verus!
