//! The schema configuration: an ordered list of glob patterns mapped
//! to schema file names, and the glob matcher that picks the first
//! pattern a filename satisfies. A `*` in a pattern matches any run of
//! characters, including none; everything else matches itself.

use vstd::prelude::*;

use crate::planner::strings_view;
use crate::text::str_eq;

verus! {

/// The first position at or after `i` holding `*`, or the length of
/// `p`.
pub open spec fn star_end(p: Seq<char>, i: int) -> int
    decreases p.len() - i when 0 <= i <= p.len()
{
    if i >= p.len() {
        i
    } else if p[i] == '*' {
        i
    } else {
        star_end(p, i + 1)
    }
}

pub proof fn lemma_star_end(p: Seq<char>, i: int)
    requires
        0 <= i <= p.len(),
    ensures
        i <= star_end(p, i) <= p.len(),
        star_end(p, i) < p.len() ==> p[star_end(p, i)] == '*',
        forall|k: int| i <= k < star_end(p, i) ==> p[k] != '*',
    decreases p.len() - i,
{
    if i < p.len() && p[i] != '*' {
        lemma_star_end(p, i + 1);
    }
}

/// A pattern split on `*`: the literal segments, in order. A pattern
/// with no `*` is one segment; adjacent or outer stars contribute
/// empty segments.
pub open spec fn split_star(p: Seq<char>) -> Seq<Seq<char>>
    decreases p.len() via split_star_dec
{
    let i = star_end(p, 0);
    if i == p.len() {
        seq![p]
    } else {
        seq![p.subrange(0, i)] + split_star(p.skip(i + 1))
    }
}

#[via_fn]
proof fn split_star_dec(p: Seq<char>) {
    lemma_star_end(p, 0);
}

/// The segments after the first, each preceded by a star, the last
/// anchored at the end: `v` ends with the last segment, and the
/// others occur disjointly in order before it.
pub open spec fn star_match(parts: Seq<Seq<char>>, v: Seq<char>) -> bool
    decreases parts.len(),
{
    if parts.len() == 0 {
        v.len() == 0
    } else if parts.len() == 1 {
        parts[0].len() <= v.len() && v.skip(v.len() - parts[0].len()) == parts[0]
    } else {
        exists|j: int|
            0 <= j && j + parts[0].len() <= v.len() && (#[trigger] v.subrange(
                j,
                j + parts[0].len(),
            )) == parts[0] && star_match(parts.drop_first(), v.skip(j + parts[0].len()))
    }
}

/// The glob relation: `v` is the first segment, then the remaining
/// segments in order with anything between, ending with the last. A
/// pattern without `*` matches only itself.
pub open spec fn glob_spec(p: Seq<char>, v: Seq<char>) -> bool {
    let parts = split_star(p);
    if parts.len() == 1 {
        v == parts[0]
    } else {
        parts[0].len() <= v.len() && v.subrange(0, parts[0].len() as int) == parts[0]
            && star_match(parts.drop_first(), v.skip(parts[0].len() as int))
    }
}

/// Splits a pattern on `*`.
fn split_star_exec(pattern: &str) -> (r: Vec<String>)
    ensures
        strings_view(r@) == split_star(pattern@),
        r@.len() >= 1,
    decreases pattern@.len(),
{
    let n: usize = pattern.unicode_len();
    let mut i: usize = 0;
    loop
        invariant
            n == pattern@.len(),
            i <= n,
            forall|k: int| 0 <= k < i ==> pattern@[k] != '*',
        ensures
            i <= n,
            forall|k: int| 0 <= k < i ==> pattern@[k] != '*',
            i == n || pattern@[i as int] == '*',
        decreases n - i,
    {
        if i >= n {
            break;
        }
        if pattern.get_char(i) == '*' {
            break;
        }
        i = i + 1;
    }
    proof {
        lemma_star_end(pattern@, 0);
        if star_end(pattern@, 0) < i {
            assert(pattern@[star_end(pattern@, 0)] == '*');
        }
        if star_end(pattern@, 0) > i {
            assert(i < pattern@.len());
            assert(pattern@[i as int] != '*');
        }
        assert(star_end(pattern@, 0) == i as int);
    }
    if i == n {
        let mut r: Vec<String> = Vec::new();
        r.push(pattern.to_owned());
        proof {
            assert(strings_view(r@) =~= split_star(pattern@));
        }
        r
    } else {
        let head: String = pattern.substring_char(0, i).to_owned();
        let tail: &str = pattern.substring_char(i + 1, n);
        let rest = split_star_exec(tail);
        let mut r: Vec<String> = Vec::new();
        r.push(head);
        let m: usize = rest.len();
        let mut k: usize = 0;
        while k < m
            invariant
                m == rest@.len(),
                k <= m,
                r@.len() == k + 1,
                strings_view(r@)[0] == pattern@.subrange(0, i as int),
                forall|q: int| 0 <= q < k ==> strings_view(r@)[q + 1] == strings_view(rest@)[q],
            decreases m - k,
        {
            let ghost before = r@;
            r.push(rest[k].clone());
            proof {
                assert(r@.drop_last() =~= before);
                assert(strings_view(r@)[k + 1] == strings_view(rest@)[k as int]);
                assert(forall|q: int|
                    0 <= q < k + 1 ==> strings_view(r@)[q] == strings_view(before)[q]);
            }
            k = k + 1;
        }
        proof {
            assert(tail@ == pattern@.skip(i + 1));
            assert(strings_view(r@) =~= seq![pattern@.subrange(0, i as int)] + split_star(
                pattern@.skip(i + 1),
            ));
        }
        r
    }
}

/// Whether the remaining segments, each preceded by a star and the
/// last anchored at the end, fit `value` from position `vi` on.
fn star_match_exec(parts: &Vec<String>, pi: usize, value: &str, vi: usize, n: usize) -> (r: bool)
    requires
        n == value@.len(),
        vi <= n,
        1 <= pi <= parts@.len(),
    ensures
        r == star_match(strings_view(parts@).skip(pi as int), value@.skip(vi as int)),
    decreases parts@.len() - pi,
{
    let ghost ps = strings_view(parts@).skip(pi as int);
    let ghost v = value@.skip(vi as int);
    if pi == parts.len() {
        proof {
            assert(ps =~= Seq::<Seq<char>>::empty());
        }
        return vi == n;
    }
    proof {
        assert(ps[0] == parts@[pi as int]@);
        assert(ps.drop_first() =~= strings_view(parts@).skip(pi + 1));
    }
    let m: usize = parts[pi].as_str().unicode_len();
    if pi == parts.len() - 1 {
        // the last segment must sit at the very end
        if m > n - vi {
            return false;
        }
        let j = n - vi - m;
        let r = crate::text::occurs_at_exec(value, parts[pi].as_str(), vi + j);
        proof {
            assert(v.skip(v.len() - m) =~= value@.subrange(vi + j, n as int));
            assert(value@.subrange(vi + j, (vi + j + m) as int) =~= value@.subrange(
                vi + j,
                n as int,
            ));
        }
        return r;
    }
    // try every position for this middle segment
    if m > n - vi {
        proof {
            if star_match(ps, v) {
                let q = choose|q: int|
                    0 <= q && q + ps[0].len() <= v.len() && (#[trigger] v.subrange(
                        q,
                        q + ps[0].len(),
                    )) == ps[0] && star_match(ps.drop_first(), v.skip(q + ps[0].len()));
            }
        }
        return false;
    }
    let pl: usize = parts.len();
    let lim: usize = n - vi - m;
    let mut j: usize = 0;
    loop
        invariant
            n == value@.len(),
            vi <= n,
            pl == parts@.len(),
            1 <= pi,
            pi + 1 < pl,
            m == parts@[pi as int]@.len(),
            m <= n - vi,
            lim == n - vi - m,
            ps == strings_view(parts@).skip(pi as int),
            v == value@.skip(vi as int),
            ps[0] == parts@[pi as int]@,
            ps.drop_first() =~= strings_view(parts@).skip(pi + 1),
            j <= lim + 1,
            forall|q: int|
                0 <= q < j ==> !(q + m <= v.len() && (#[trigger] v.subrange(q, q + m as int))
                    == ps[0] && star_match(ps.drop_first(), v.skip(q + m as int))),
        ensures
            !star_match(ps, v),
        decreases lim + 1 - j,
    {
        if j > lim {
            proof {
                if star_match(ps, v) {
                    let q = choose|q: int|
                        0 <= q && q + ps[0].len() <= v.len() && (#[trigger] v.subrange(
                            q,
                            q + ps[0].len(),
                        )) == ps[0] && star_match(ps.drop_first(), v.skip(q + ps[0].len()));
                    assert(q <= lim);
                    assert(q < j);
                }
            }
            break;
        }
        if crate::text::occurs_at_exec(value, parts[pi].as_str(), vi + j) {
            proof {
                assert(v.subrange(j as int, j + m) =~= value@.subrange(
                    (vi + j) as int,
                    (vi + j + m) as int,
                ));
            }
            if star_match_exec(parts, pi + 1, value, vi + j + m, n) {
                proof {
                    assert(v.skip(j + m) =~= value@.skip((vi + j + m) as int));
                    assert(star_match(ps, v)) by {
                        assert(0 <= j as int && j + m <= v.len() && v.subrange(j as int, j + m)
                            == ps[0] && star_match(ps.drop_first(), v.skip(j + m)));
                    }
                }
                return true;
            }
            proof {
                assert(v.skip(j + m) =~= value@.skip((vi + j + m) as int));
            }
        } else {
            proof {
                assert(v.subrange(j as int, j + m) =~= value@.subrange(
                    (vi + j) as int,
                    (vi + j + m) as int,
                ));
            }
        }
        if j == lim {
            proof {
                if star_match(ps, v) {
                    let q = choose|q: int|
                        0 <= q && q + ps[0].len() <= v.len() && (#[trigger] v.subrange(
                            q,
                            q + ps[0].len(),
                        )) == ps[0] && star_match(ps.drop_first(), v.skip(q + ps[0].len()));
                    assert(q <= lim);
                }
            }
            break;
        }
        j = j + 1;
    }
    false
}

/// Whether `value` satisfies the glob `pattern`.
pub fn glob_match(pattern: &str, value: &str) -> (r: bool)
    ensures
        r == glob_spec(pattern@, value@),
{
    let parts = split_star_exec(pattern);
    if parts.len() == 1 {
        return str_eq(parts[0].as_str(), value);
    }
    let n: usize = value.unicode_len();
    let m: usize = parts[0].as_str().unicode_len();
    if m > n {
        return false;
    }
    if !crate::text::occurs_at_exec(value, parts[0].as_str(), 0) {
        proof {
            assert(value@.subrange(0, m as int) =~= value@.subrange(0, m as int));
        }
        return false;
    }
    proof {
        assert(value@.subrange(0, m as int) == split_star(pattern@)[0]);
    }
    star_match_exec(&parts, 1, value, m, n)
}

/// The key-value configuration that picks a schema for a filename:
/// glob patterns mapped to schema file names, tried in order.
#[derive(Debug)]
pub struct Config {
    pub schemas: Vec<(String, String)>,
}

/// The schema name of the first entry whose pattern matches.
pub open spec fn first_schema(
    entries: Seq<(Seq<char>, Seq<char>)>,
    filename: Seq<char>,
) -> Option<Seq<char>>
    decreases entries.len(),
{
    if entries.len() == 0 {
        None
    } else if glob_spec(entries[0].0, filename) {
        Some(entries[0].1)
    } else {
        first_schema(entries.drop_first(), filename)
    }
}

/// The views of the schema entries.
pub open spec fn schemas_view(es: Seq<(String, String)>) -> Seq<(Seq<char>, Seq<char>)> {
    es.map(|i: int, e: (String, String)| (e.0@, e.1@))
}

impl Config {
    /// The schema file name configured for this filename, if any
    /// pattern matches: the first matching entry wins.
    pub fn resolve_schema(&self, filename: &str) -> (r: Option<&String>)
        ensures
            match r {
                Some(s) => first_schema(schemas_view(self.schemas@), filename@) == Some(s@),
                None => first_schema(schemas_view(self.schemas@), filename@) is None,
            },
    {
        let n: usize = self.schemas.len();
        let mut i: usize = 0;
        proof {
            assert(schemas_view(self.schemas@).skip(0) =~= schemas_view(self.schemas@));
        }
        while i < n
            invariant
                n == self.schemas@.len(),
                i <= n,
                first_schema(schemas_view(self.schemas@), filename@) == first_schema(
                    schemas_view(self.schemas@).skip(i as int),
                    filename@,
                ),
            decreases n - i,
        {
            proof {
                assert(schemas_view(self.schemas@).skip(i as int)[0] == (
                    self.schemas@[i as int].0@,
                    self.schemas@[i as int].1@,
                ));
                assert(schemas_view(self.schemas@).skip(i as int).drop_first() =~= schemas_view(
                    self.schemas@,
                ).skip(i + 1));
            }
            if glob_match(self.schemas[i].0.as_str(), filename) {
                return Some(&self.schemas[i].1);
            }
            i = i + 1;
        }
        proof {
            assert(schemas_view(self.schemas@).skip(n as int) =~= Seq::<
                (Seq<char>, Seq<char>),
            >::empty());
        }
        None
    }
}

impl Default for Config {
    /// An empty configuration: no schema patterns.
    fn default() -> (r: Config)
        ensures
            r.schemas@.len() == 0,
    {
        Config { schemas: Vec::new() }
    }
}

} // verus!
