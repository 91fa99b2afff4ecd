//! Note filename construction and selection: the dated names of the
//! periodic notes, the `.md` completion of a free-form note name, and
//! the filter that picks note files out of a directory listing. The
//! surrounding directory and clock work lives outside the library.

use vstd::prelude::*;

use crate::planner::strings_view;
use crate::text::spec_decimal;
use crate::text::u64_to_string;

verus! {

/// A number padded with leading zeros to at least two digits.
pub open spec fn pad2(n: nat) -> Seq<char> {
    if n < 10 {
        seq!['0'] + spec_decimal(n)
    } else {
        spec_decimal(n)
    }
}

/// A number padded with leading zeros to at least four digits.
pub open spec fn pad4(n: nat) -> Seq<char> {
    if n < 10 {
        seq!['0', '0', '0'] + spec_decimal(n)
    } else if n < 100 {
        seq!['0', '0'] + spec_decimal(n)
    } else if n < 1000 {
        seq!['0'] + spec_decimal(n)
    } else {
        spec_decimal(n)
    }
}

/// Renders a number padded to at least two digits.
fn pad2_string(n: u64) -> (r: String)
    ensures
        r@ == pad2(n as nat),
{
    proof {
        reveal_strlit("0");
    }
    if n < 10 {
        let mut r = "0".to_owned();
        r.append(u64_to_string(n).as_str());
        proof {
            assert("0"@ =~= seq!['0']);
        }
        r
    } else {
        u64_to_string(n)
    }
}

/// Renders a number padded to at least four digits.
fn pad4_string(n: u64) -> (r: String)
    ensures
        r@ == pad4(n as nat),
{
    proof {
        reveal_strlit("0");
        reveal_strlit("00");
        reveal_strlit("000");
        assert("0"@ =~= seq!['0']);
        assert("00"@ =~= seq!['0', '0']);
        assert("000"@ =~= seq!['0', '0', '0']);
    }
    if n < 10 {
        let mut r = "000".to_owned();
        r.append(u64_to_string(n).as_str());
        r
    } else if n < 100 {
        let mut r = "00".to_owned();
        r.append(u64_to_string(n).as_str());
        r
    } else if n < 1000 {
        let mut r = "0".to_owned();
        r.append(u64_to_string(n).as_str());
        r
    } else {
        u64_to_string(n)
    }
}

/// A date rendered as `YYYY.MM.DD`.
pub open spec fn date_text(year: nat, month: nat, day: nat) -> Seq<char> {
    pad4(year) + "."@ + pad2(month) + "."@ + pad2(day)
}

/// Renders a date as `YYYY.MM.DD`.
fn date_string(year: u64, month: u64, day: u64) -> (r: String)
    ensures
        r@ == date_text(year as nat, month as nat, day as nat),
{
    let mut r = pad4_string(year);
    r.append(".");
    r.append(pad2_string(month).as_str());
    r.append(".");
    r.append(pad2_string(day).as_str());
    r
}

/// The daily note's name for a date.
pub fn daily_filename(year: u64, month: u64, day: u64) -> (r: String)
    ensures
        r@ == "daily."@ + date_text(year as nat, month as nat, day as nat) + ".md"@,
{
    let mut r = "daily.".to_owned();
    r.append(date_string(year, month, day).as_str());
    r.append(".md");
    r
}

/// The weekly note's name for the week starting at a date.
pub fn weekly_filename(year: u64, month: u64, day: u64) -> (r: String)
    ensures
        r@ == "weekly."@ + date_text(year as nat, month as nat, day as nat) + ".md"@,
{
    let mut r = "weekly.".to_owned();
    r.append(date_string(year, month, day).as_str());
    r.append(".md");
    r
}

/// The monthly note's name for a month.
pub fn monthly_filename(year: u64, month: u64) -> (r: String)
    ensures
        r@ == "monthly."@ + spec_decimal(year as nat) + "."@ + pad2(month as nat) + ".md"@,
{
    let mut r = "monthly.".to_owned();
    r.append(u64_to_string(year).as_str());
    r.append(".");
    r.append(pad2_string(month).as_str());
    r.append(".md");
    r
}

/// The scratch note's name for a timestamp.
pub fn scratch_filename(timestamp: u64) -> (r: String)
    ensures
        r@ == "scratch."@ + spec_decimal(timestamp as nat) + ".md"@,
{
    let mut r = "scratch.".to_owned();
    r.append(u64_to_string(timestamp).as_str());
    r.append(".md");
    r
}

/// The name ends with the document suffix.
pub open spec fn ends_with_md(s: Seq<char>) -> bool {
    s.len() >= 3 && s.subrange(s.len() - 3, s.len() as int) == ".md"@
}

/// Whether the name ends with the document suffix.
pub fn has_md_suffix(name: &str) -> (r: bool)
    ensures
        r == ends_with_md(name@),
{
    let n: usize = name.unicode_len();
    if n < 3 {
        return false;
    }
    proof {
        reveal_strlit(".md");
    }
    let r = crate::text::occurs_at_exec(name, ".md", n - 3);
    proof {
        assert(name@.subrange(name@.len() - 3, name@.len() as int) =~= name@.subrange(
            (n - 3) as int,
            (n - 3) + ".md"@.len(),
        ));
    }
    r
}

/// A free-form note name completed with the document suffix unless it
/// already carries it.
pub fn note_filename(name: &str) -> (r: String)
    ensures
        r@ == if ends_with_md(name@) {
            name@
        } else {
            name@ + ".md"@
        },
{
    if has_md_suffix(name) {
        name.to_owned()
    } else {
        let mut r = name.to_owned();
        r.append(".md");
        r
    }
}

/// The name starts with the schema prefix.
pub open spec fn starts_with_schema(s: Seq<char>) -> bool {
    s.len() >= 7 && s.subrange(0, 7) == "schema."@
}

/// A name shown in the note list: a document that is not a schema
/// template.
pub open spec fn is_note_name(s: Seq<char>) -> bool {
    ends_with_md(s) && !starts_with_schema(s)
}

/// The note names of a listing, in input order.
pub open spec fn note_names(names: Seq<String>) -> Seq<Seq<char>>
    decreases names.len(),
{
    if names.len() == 0 {
        Seq::empty()
    } else {
        let pre = note_names(names.drop_last());
        if is_note_name(names.last()@) {
            pre.push(names.last()@)
        } else {
            pre
        }
    }
}

/// Keeps the note files of a directory listing: documents, without
/// schema templates.
pub fn filter_note_names(names: &Vec<String>) -> (r: Vec<String>)
    ensures
        strings_view(r@) == note_names(names@),
{
    let n: usize = names.len();
    let mut out: Vec<String> = Vec::new();
    let mut i: usize = 0;
    while i < n
        invariant
            n == names@.len(),
            i <= n,
            strings_view(out@) =~= note_names(names@.take(i as int)),
        decreases n - i,
    {
        proof {
            assert(names@.take(i + 1).drop_last() =~= names@.take(i as int));
            assert(names@.take(i + 1).last() == names@[i as int]);
        }
        let keep = if !has_md_suffix(names[i].as_str()) {
            false
        } else {
            let nn: usize = names[i].as_str().unicode_len();
            if nn < 7 {
                proof {
                    reveal_strlit("schema.");
                }
                true
            } else {
                proof {
                    reveal_strlit("schema.");
                }
                let starts = crate::text::occurs_at_exec(names[i].as_str(), "schema.", 0);
                proof {
                    assert(names@[i as int]@.subrange(0, 7) =~= names@[i as int]@.subrange(
                        0,
                        "schema."@.len() as int,
                    ));
                }
                !starts
            }
        };
        if keep {
            let ghost before = out@;
            out.push(names[i].clone());
            proof {
                assert(out@.drop_last() =~= before);
                assert(strings_view(out@) =~= note_names(names@.take(i + 1)));
            }
        } else {
            proof {
                assert(strings_view(out@) =~= note_names(names@.take(i + 1)));
            }
        }
        i = i + 1;
    }
    proof {
        assert(names@.take(n as int) =~= names@);
    }
    out
}

} // verus!
