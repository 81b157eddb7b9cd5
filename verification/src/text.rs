//! Rendering of the final summary: decimal numbers and independently
//! pluralized nouns.

use vstd::prelude::*;
use vstd::string::StringExecFns;

verus! {

/// The character for one decimal digit value.
pub open spec fn dec_digit(d: nat) -> char {
    if d == 0 {
        '0'
    } else if d == 1 {
        '1'
    } else if d == 2 {
        '2'
    } else if d == 3 {
        '3'
    } else if d == 4 {
        '4'
    } else if d == 5 {
        '5'
    } else if d == 6 {
        '6'
    } else if d == 7 {
        '7'
    } else if d == 8 {
        '8'
    } else {
        '9'
    }
}

/// The decimal representation of a number, most significant digit first,
/// with no leading zeros (zero itself is "0").
pub open spec fn dec_rep(n: nat) -> Seq<char>
    decreases n,
{
    if n < 10 {
        seq![dec_digit(n)]
    } else {
        dec_rep(n / 10) + seq![dec_digit(n % 10)]
    }
}

/// The noun after a line count, singular exactly when the count is one.
pub open spec fn line_word(n: nat) -> Seq<char> {
    if n == 1 {
        seq![' ', 'l', 'i', 'n', 'e']
    } else {
        seq![' ', 'l', 'i', 'n', 'e', 's']
    }
}

/// The noun after a file count, singular exactly when the count is one.
pub open spec fn file_word(n: nat) -> Seq<char> {
    if n == 1 {
        seq![' ', 'f', 'i', 'l', 'e']
    } else {
        seq![' ', 'f', 'i', 'l', 'e', 's']
    }
}

/// The one line printed in standard-input mode: no file count, since there
/// is no file.
pub open spec fn stdin_summary(n: nat) -> Seq<char> {
    dec_rep(n) + line_word(n)
}

/// The one line printed after a run over files.
pub open spec fn summary_text(lines: nat, files: nat) -> Seq<char> {
    dec_rep(lines) + line_word(lines) + seq![' ', 'i', 'n', ' '] + dec_rep(files) + file_word(
        files,
    )
}

fn digit_str(d: u8) -> (r: &'static str)
    requires
        d < 10,
    ensures
        r@ =~= seq![dec_digit(d as nat)],
{
    proof {
        reveal_strlit("0");
        reveal_strlit("1");
        reveal_strlit("2");
        reveal_strlit("3");
        reveal_strlit("4");
        reveal_strlit("5");
        reveal_strlit("6");
        reveal_strlit("7");
        reveal_strlit("8");
        reveal_strlit("9");
    }
    match d {
        0 => "0",
        1 => "1",
        2 => "2",
        3 => "3",
        4 => "4",
        5 => "5",
        6 => "6",
        7 => "7",
        8 => "8",
        _ => "9",
    }
}

/// Digits collected least significant first, read back most significant
/// first.
spec fn digits_text(ds: Seq<u8>) -> Seq<char>
    decreases ds.len(),
{
    if ds.len() == 0 {
        Seq::empty()
    } else {
        seq![dec_digit(ds.last() as nat)] + digits_text(ds.drop_last())
    }
}

/// Render a number in decimal.
pub fn usize_to_string(n: usize) -> (r: String)
    ensures
        r@ == dec_rep(n as nat),
{
    let mut digits: Vec<u8> = Vec::new();
    let mut m: usize = n;
    while m >= 10
        invariant
            dec_rep(n as nat) =~= dec_rep(m as nat) + digits_text(digits@),
            forall|k: int| 0 <= k < digits@.len() ==> digits@[k] < 10,
        decreases m,
    {
        let d: u8 = (m % 10) as u8;
        proof {
            assert(digits@.push(d).drop_last() =~= digits@);
            assert(digits_text(digits@.push(d)) =~= seq![dec_digit(d as nat)] + digits_text(
                digits@,
            ));
            assert(dec_rep(m as nat) =~= dec_rep((m as nat) / 10) + seq![
                dec_digit((m as nat) % 10),
            ]);
            assert(dec_rep((m as nat) / 10) + digits_text(digits@.push(d)) =~= dec_rep(m as nat)
                + digits_text(digits@));
        }
        digits.push(d);
        m = m / 10;
    }
    let d: u8 = m as u8;
    proof {
        assert(digits@.push(d).drop_last() =~= digits@);
        assert(digits_text(digits@.push(d)) =~= seq![dec_digit(d as nat)] + digits_text(digits@));
        assert(dec_rep(m as nat) =~= seq![dec_digit(m as nat)]);
        assert(digits_text(digits@.push(d)) =~= dec_rep(m as nat) + digits_text(digits@));
    }
    digits.push(d);
    assert(dec_rep(n as nat) =~= digits_text(digits@));
    let ghost ds = digits@;
    let mut out = String::new();
    let mut j: usize = digits.len();
    proof {
        assert(ds.take(ds.len() as int) =~= ds);
        assert(out@ + digits_text(ds) =~= digits_text(ds));
    }
    while j > 0
        invariant
            j <= ds.len(),
            digits@ == ds,
            forall|k: int| 0 <= k < ds.len() ==> ds[k] < 10,
            digits_text(ds) =~= out@ + digits_text(ds.take(j as int)),
        decreases j,
    {
        j = j - 1;
        proof {
            assert(ds.take(j + 1).drop_last() =~= ds.take(j as int));
            assert(ds.take(j + 1).last() == ds[j as int]);
            assert(digits_text(ds.take(j + 1)) =~= seq![dec_digit(ds[j as int] as nat)]
                + digits_text(ds.take(j as int)));
        }
        let piece = digit_str(digits[j]);
        out.append(piece);
        proof {
            assert(digits_text(ds) =~= out@ + digits_text(ds.take(j as int)));
        }
    }
    proof {
        assert(ds.take(0) =~= Seq::<u8>::empty());
        assert(digits_text(ds.take(0)) =~= Seq::<char>::empty());
        assert(out@ =~= digits_text(ds));
    }
    out
}

/// Append the line noun, singular exactly when `n` is one.
fn append_line_word(out: &mut String, n: usize)
    ensures
        final(out)@ == old(out)@ + line_word(n as nat),
{
    if n == 1 {
        proof {
            reveal_strlit(" line");
            assert(" line"@ =~= seq![' ', 'l', 'i', 'n', 'e']);
        }
        out.append(" line");
    } else {
        proof {
            reveal_strlit(" lines");
            assert(" lines"@ =~= seq![' ', 'l', 'i', 'n', 'e', 's']);
        }
        out.append(" lines");
    }
}

/// The summary for standard-input mode, e.g. `3 lines` or `1 line`.
pub fn stdin_line(n: usize) -> (r: String)
    ensures
        r@ == stdin_summary(n as nat),
{
    let mut out = usize_to_string(n);
    append_line_word(&mut out, n);
    out
}

/// The summary for a run over files, e.g. `7 lines in 3 files` or
/// `1 line in 1 file`; each noun is pluralized on its own count.
pub fn summary_line(lines: usize, files: usize) -> (r: String)
    ensures
        r@ == summary_text(lines as nat, files as nat),
{
    let mut out = usize_to_string(lines);
    append_line_word(&mut out, lines);
    proof {
        reveal_strlit(" in ");
        assert(" in "@ =~= seq![' ', 'i', 'n', ' ']);
    }
    out.append(" in ");
    let files_text = usize_to_string(files);
    out.append(files_text.as_str());
    if files == 1 {
        proof {
            reveal_strlit(" file");
            assert(" file"@ =~= seq![' ', 'f', 'i', 'l', 'e']);
        }
        out.append(" file");
    } else {
        proof {
            reveal_strlit(" files");
            assert(" files"@ =~= seq![' ', 'f', 'i', 'l', 'e', 's']);
        }
        out.append(" files");
    }
    out
}

} // verus!
