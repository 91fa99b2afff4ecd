//! The recovery-journal text format: an ordered list of rename entries
//! persisted as line-based text, two lines per entry, source first.
//! Writing and then reading a journal reproduces the exact ordered
//! list, which is what crash recovery depends on; filenames cannot
//! contain line breaks.

use vstd::prelude::*;

use crate::planner::RenamePlan;
use crate::planner::plans_view;

verus! {

/// The line separator.
pub open spec fn nl() -> Seq<char> {
    seq!['\n']
}

/// A name that fits on one journal line.
pub open spec fn line_ok(s: Seq<char>) -> bool {
    forall|k: int| 0 <= k < s.len() ==> s[k] != '\n'
}

/// Both names of one entry fit on journal lines.
pub open spec fn plan_line_ok(p: (Seq<char>, Seq<char>)) -> bool {
    line_ok(p.0) && line_ok(p.1)
}

/// Every entry of the batch fits the journal format.
pub open spec fn plans_encodable(pv: Seq<(Seq<char>, Seq<char>)>) -> bool {
    forall|i: int| 0 <= i < pv.len() ==> #[trigger] plan_line_ok(pv[i])
}

/// The journal text of a batch: two newline-terminated lines per
/// entry, source then destination, in order.
pub open spec fn encode_spec(pv: Seq<(Seq<char>, Seq<char>)>) -> Seq<char>
    decreases pv.len(),
{
    if pv.len() == 0 {
        Seq::empty()
    } else {
        encode_spec(pv.drop_last()) + pv.last().0 + nl() + pv.last().1 + nl()
    }
}

/// Encoding unfolds from the front as well.
pub proof fn lemma_encode_front(pv: Seq<(Seq<char>, Seq<char>)>)
    requires
        pv.len() > 0,
    ensures
        encode_spec(pv) == pv[0].0 + nl() + pv[0].1 + nl() + encode_spec(pv.drop_first()),
    decreases pv.len(),
{
    if pv.len() == 1 {
        assert(pv.drop_last() =~= Seq::<(Seq<char>, Seq<char>)>::empty());
        assert(pv.drop_first() =~= Seq::<(Seq<char>, Seq<char>)>::empty());
        assert(Seq::<char>::empty() + pv.last().0 + nl() + pv.last().1 + nl() =~= pv[0].0 + nl()
            + pv[0].1 + nl() + Seq::<char>::empty());
    } else {
        lemma_encode_front(pv.drop_last());
        assert(pv.drop_last()[0] == pv[0]);
        assert(pv.drop_last().drop_first() =~= pv.drop_first().drop_last());
        assert(pv.drop_first().last() == pv.last());
        assert((pv[0].0 + nl() + pv[0].1 + nl() + encode_spec(pv.drop_first().drop_last()))
            + pv.last().0 + nl() + pv.last().1 + nl() =~= pv[0].0 + nl() + pv[0].1 + nl() + (
        encode_spec(pv.drop_first().drop_last()) + pv.last().0 + nl() + pv.last().1 + nl()));
    }
}

/// The first position at or after `i` holding a line break, or the
/// length of `s`.
pub open spec fn newline_end(s: Seq<char>, i: int) -> int
    decreases s.len() - i when 0 <= i <= s.len()
{
    if i >= s.len() {
        i
    } else if s[i] == '\n' {
        i
    } else {
        newline_end(s, i + 1)
    }
}

pub proof fn lemma_newline_end(s: Seq<char>, i: int)
    requires
        0 <= i <= s.len(),
    ensures
        i <= newline_end(s, i) <= s.len(),
        newline_end(s, i) < s.len() ==> s[newline_end(s, i)] == '\n',
        forall|k: int| i <= k < newline_end(s, i) ==> s[k] != '\n',
    decreases s.len() - i,
{
    if i < s.len() && s[i] != '\n' {
        lemma_newline_end(s, i + 1);
    }
}

/// The batch a journal text holds, or nothing when the text is not a
/// whole number of newline-terminated line pairs.
pub open spec fn parse_spec(text: Seq<char>) -> Option<Seq<(Seq<char>, Seq<char>)>>
    decreases text.len() via parse_spec_dec
{
    if text.len() == 0 {
        Some(Seq::empty())
    } else {
        let i = newline_end(text, 0);
        if i >= text.len() {
            None
        } else {
            let rest1 = text.skip(i + 1);
            let j = newline_end(rest1, 0);
            if j >= rest1.len() {
                None
            } else {
                match parse_spec(rest1.skip(j + 1)) {
                    Option::Some(ps) => Some(
                        seq![(text.subrange(0, i), rest1.subrange(0, j))] + ps,
                    ),
                    Option::None => None,
                }
            }
        }
    }
}

#[via_fn]
proof fn parse_spec_dec(text: Seq<char>) {
    if text.len() > 0 {
        lemma_newline_end(text, 0);
        let i = newline_end(text, 0);
        if i < text.len() {
            lemma_newline_end(text.skip(i + 1), 0);
        }
    }
}

/// The round-trip law of the journal format: a journal written for any
/// batch of single-line names reads back as exactly that batch.
pub proof fn lemma_journal_round_trip(pv: Seq<(Seq<char>, Seq<char>)>)
    requires
        plans_encodable(pv),
    ensures
        parse_spec(encode_spec(pv)) == Some(pv),
    decreases pv.len(),
{
    if pv.len() == 0 {
        assert(encode_spec(pv) =~= Seq::<char>::empty());
        assert(parse_spec(encode_spec(pv)) == Some(Seq::<(Seq<char>, Seq<char>)>::empty()));
        assert(pv =~= Seq::<(Seq<char>, Seq<char>)>::empty());
    } else {
        let f = pv[0].0;
        let t = pv[0].1;
        lemma_encode_front(pv);
        let e = encode_spec(pv);
        assert(plan_line_ok(pv[0]));
        assert(line_ok(f) && line_ok(t));
        // the first line break sits right after the source name
        lemma_newline_end(e, 0);
        assert(forall|k: int| 0 <= k < f.len() ==> e[k] == f[k]);
        assert(e[f.len() as int] == '\n');
        let i = newline_end(e, 0);
        assert(i == f.len()) by {
            if i < f.len() {
                assert(e[i] == '\n');
                assert(f[i] != '\n');
            }
            if i > f.len() {
                assert(e[f.len() as int] != '\n');
            }
        }
        assert(e.subrange(0, i) =~= f);
        let rest1 = e.skip(i + 1);
        assert(rest1 =~= t + nl() + encode_spec(pv.drop_first()));
        lemma_newline_end(rest1, 0);
        assert(forall|k: int| 0 <= k < t.len() ==> rest1[k] == t[k]);
        assert(rest1[t.len() as int] == '\n');
        let j = newline_end(rest1, 0);
        assert(j == t.len()) by {
            if j < t.len() {
                assert(rest1[j] == '\n');
                assert(t[j] != '\n');
            }
            if j > t.len() {
                assert(rest1[t.len() as int] != '\n');
            }
        }
        assert(rest1.subrange(0, j) =~= t);
        assert(rest1.skip(j + 1) =~= encode_spec(pv.drop_first()));
        assert forall|k: int|
            0 <= k < pv.drop_first().len() implies #[trigger] plan_line_ok(
            pv.drop_first()[k],
        ) by {
            assert(pv.drop_first()[k] == pv[k + 1]);
            assert(plan_line_ok(pv[k + 1]));
        }
        assert(plans_encodable(pv.drop_first()));
        lemma_journal_round_trip(pv.drop_first());
        assert(seq![(f, t)] + pv.drop_first() =~= pv);
    }
}

/// Whether a name fits on one journal line.
fn name_line_ok(s: &str) -> (r: bool)
    ensures
        r == line_ok(s@),
{
    let n: usize = s.unicode_len();
    let e = find_newline(s, 0, n);
    proof {
        lemma_newline_end(s@, 0);
        if e < n {
            assert(!line_ok(s@));
        }
    }
    e == n
}

/// Renders a batch as journal text; a batch holding a name with a
/// line break cannot be represented and is refused, since it could
/// not read back as itself.
pub fn journal_to_string(plans: &Vec<RenamePlan>) -> (r: Option<String>)
    ensures
        match r {
            Some(text) => plans_encodable(plans_view(plans@)) && text@ == encode_spec(
                plans_view(plans@),
            ),
            None => !plans_encodable(plans_view(plans@)),
        },
{
    let n: usize = plans.len();
    let mut out = String::new();
    let mut i: usize = 0;
    while i < n
        invariant
            n == plans@.len(),
            i <= n,
            out@ == encode_spec(plans_view(plans@).take(i as int)),
            forall|k: int| 0 <= k < i ==> #[trigger] plan_line_ok(plans_view(plans@)[k]),
        decreases n - i,
    {
        if !name_line_ok(plans[i].from.as_str()) || !name_line_ok(plans[i].to.as_str()) {
            proof {
                assert(!plan_line_ok(plans_view(plans@)[i as int]));
                assert(!plans_encodable(plans_view(plans@)));
            }
            return None;
        }
        proof {
            assert(plans_view(plans@).take(i + 1).drop_last() =~= plans_view(plans@).take(
                i as int,
            ));
            assert(plans_view(plans@).take(i + 1).last() == plans@[i as int]@);
        }
        out.append(plans[i].from.as_str());
        out.append("\n");
        out.append(plans[i].to.as_str());
        out.append("\n");
        proof {
            reveal_strlit("\n");
            assert("\n"@ =~= nl());
            assert(out@ =~= encode_spec(plans_view(plans@).take(i + 1)));
        }
        i = i + 1;
    }
    proof {
        assert(plans_view(plans@).take(n as int) =~= plans_view(plans@));
    }
    Some(out)
}

/// Scans for the next line break at or after `i`.
fn find_newline(text: &str, i: usize, n: usize) -> (r: usize)
    requires
        n == text@.len(),
        i <= n,
    ensures
        r == newline_end(text@, i as int),
        i <= r <= n,
{
    let mut j: usize = i;
    loop
        invariant
            n == text@.len(),
            i <= j <= n,
            forall|k: int| i <= k < j ==> text@[k] != '\n',
        ensures
            i <= j <= n,
            forall|k: int| i <= k < j ==> text@[k] != '\n',
            j == n || text@[j as int] == '\n',
        decreases n - j,
    {
        if j >= n {
            break;
        }
        if text.get_char(j) == '\n' {
            break;
        }
        j = j + 1;
    }
    proof {
        lemma_newline_end(text@, i as int);
        if newline_end(text@, i as int) < j {
            assert(text@[newline_end(text@, i as int)] != '\n');
        }
        if newline_end(text@, i as int) > j {
            assert(j < text@.len());
            assert(text@[j as int] != '\n');
        }
    }
    j
}

/// The recursive reader behind [`parse_journal`].
fn parse_from(text: &str, i: usize, n: usize) -> (r: Option<Vec<RenamePlan>>)
    requires
        n == text@.len(),
        i <= n,
    ensures
        match r {
            Some(v) => parse_spec(text@.skip(i as int)) == Some(plans_view(v@)),
            None => parse_spec(text@.skip(i as int)) is None,
        },
    decreases n - i,
{
    let ghost rest = text@.skip(i as int);
    if i == n {
        let v: Vec<RenamePlan> = Vec::new();
        proof {
            assert(rest =~= Seq::<char>::empty());
            assert(plans_view(v@) =~= Seq::<(Seq<char>, Seq<char>)>::empty());
        }
        return Some(v);
    }
    let e1 = find_newline(text, i, n);
    proof {
        lemma_newline_end(text@, i as int);
        lemma_newline_end(rest, 0);
        if newline_end(rest, 0) < e1 - i {
            assert(rest[newline_end(rest, 0)] == '\n');
            assert(text@[newline_end(rest, 0) + i] == '\n');
        }
        if newline_end(rest, 0) > e1 - i {
            assert(e1 < n);
            assert(rest[e1 - i] == text@[e1 as int]);
        }
        assert(newline_end(rest, 0) == e1 - i);
    }
    if e1 == n {
        return None;
    }
    let from: String = text.substring_char(i, e1).to_owned();
    proof {
        assert(rest.subrange(0, e1 - i) =~= text@.subrange(i as int, e1 as int));
    }
    let ghost rest1 = rest.skip(e1 - i + 1);
    proof {
        assert(rest1 =~= text@.skip(e1 + 1));
    }
    let e2 = find_newline(text, e1 + 1, n);
    proof {
        lemma_newline_end(text@, e1 + 1);
        lemma_newline_end(rest1, 0);
        if newline_end(rest1, 0) < e2 - e1 - 1 {
            assert(rest1[newline_end(rest1, 0)] == '\n');
            assert(text@[newline_end(rest1, 0) + e1 + 1] == '\n');
        }
        if newline_end(rest1, 0) > e2 - e1 - 1 {
            assert(e2 < n);
            assert(rest1[e2 - e1 - 1] == text@[e2 as int]);
        }
        assert(newline_end(rest1, 0) == e2 - e1 - 1);
    }
    if e2 == n {
        return None;
    }
    let to: String = text.substring_char(e1 + 1, e2).to_owned();
    proof {
        assert(rest1.subrange(0, e2 - e1 - 1) =~= text@.subrange(e1 + 1, e2 as int));
    }
    match parse_from(text, e2 + 1, n) {
        Some(ps) => {
            let ghost pbefore = ps@;
            let mut v = ps;
            v.insert(0, RenamePlan { from, to });
            proof {
                assert(rest1.skip(e2 - e1 - 1 + 1) =~= text@.skip(e2 + 1));
                assert(v@[0]@ == (from@, to@));
                assert(forall|k: int| 0 <= k < pbefore.len() ==> v@[k + 1] == pbefore[k]);
                assert(plans_view(v@) =~= seq![
                    (rest.subrange(0, e1 - i), rest1.subrange(0, e2 - e1 - 1)),
                ] + plans_view(pbefore));
                assert(parse_spec(rest) == Some(
                    seq![(rest.subrange(0, e1 - i), rest1.subrange(0, e2 - e1 - 1))]
                        + plans_view(pbefore),
                ));
            }
            Some(v)
        },
        None => {
            proof {
                assert(rest1.skip(e2 - e1 - 1 + 1) =~= text@.skip(e2 + 1));
            }
            None
        },
    }
}

/// Reads journal text back into a batch; text that is not a whole
/// number of line pairs is rejected.
pub fn parse_journal(text: &str) -> (r: Option<Vec<RenamePlan>>)
    ensures
        match r {
            Some(v) => parse_spec(text@) == Some(plans_view(v@)),
            None => parse_spec(text@) is None,
        },
{
    let n: usize = text.unicode_len();
    proof {
        assert(text@.skip(0) =~= text@);
    }
    parse_from(text, 0, n)
}

} // verus!
