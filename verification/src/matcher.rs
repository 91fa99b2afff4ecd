//! The pattern matcher: an anchored whole-string extraction rule built
//! from a compiled pattern. A candidate filename matches when it can be
//! split, token by token, into the literal spans and class-constrained
//! placeholder values; matching is greedy, preferring the longest value
//! for an earlier placeholder.

use vstd::prelude::*;

use crate::template::Placeholder;
use crate::template::RefactorPattern;
use crate::template::Token;
use crate::template::TokenView;
use crate::template::is_number_name;
use crate::template::names_view;
use crate::template::ph_names;
use crate::template::tokens_view;
use crate::template::unique_names;
use crate::text::is_digit;
use crate::text::is_lower;
use crate::text::is_nonzero_digit;
use crate::text::is_slug_char;

verus! {

/// A well-formed slug value: a lower-case letter followed by lower-case
/// letters, digits or hyphens.
pub open spec fn slug_ok(v: Seq<char>) -> bool {
    v.len() >= 1 && is_lower(v[0]) && forall|k: int| 1 <= k < v.len() ==> is_slug_char(v[k])
}

/// A well-formed number value: a digit 1-9 followed by digits.
pub open spec fn num_ok(v: Seq<char>) -> bool {
    v.len() >= 1 && is_nonzero_digit(v[0]) && forall|k: int| 1 <= k < v.len() ==> is_digit(v[k])
}

/// The class constraint a captured value must satisfy, by the name of
/// the placeholder that captures it.
pub open spec fn value_ok(name: Seq<char>, v: Seq<char>) -> bool {
    if is_number_name(name) {
        num_ok(v)
    } else {
        slug_ok(v)
    }
}

/// `vals` is a valid decomposition of `s` against `toks`: the literal
/// spans and the values, one per placeholder occurrence in order,
/// concatenate to exactly `s`, and every value satisfies its class.
pub open spec fn caps_match(toks: Seq<TokenView>, vals: Seq<Seq<char>>, s: Seq<char>) -> bool
    decreases toks.len(),
{
    if toks.len() == 0 {
        vals.len() == 0 && s.len() == 0
    } else {
        match toks[0] {
            TokenView::Lit(l) => l.len() <= s.len() && s.subrange(0, l.len() as int) == l
                && caps_match(toks.drop_first(), vals, s.skip(l.len() as int)),
            TokenView::Ph(name) => vals.len() >= 1 && value_ok(name, vals[0]) && vals[0].len()
                <= s.len() && s.subrange(0, vals[0].len() as int) == vals[0] && caps_match(
                toks.drop_first(),
                vals.drop_first(),
                s.skip(vals[0].len() as int),
            ),
        }
    }
}

/// The values of a capture, one per placeholder occurrence.
pub open spec fn vals_view(vs: Seq<String>) -> Seq<Seq<char>> {
    vs.map(|i: int, v: String| v@)
}

/// In any decomposition, there is one value per placeholder occurrence.
pub proof fn lemma_caps_vals_len(toks: Seq<TokenView>, vals: Seq<Seq<char>>, s: Seq<char>)
    requires
        caps_match(toks, vals, s),
    ensures
        vals.len() == ph_names(toks).len(),
    decreases toks.len(),
{
    if toks.len() > 0 {
        crate::template::lemma_ph_names_front(toks);
        match toks[0] {
            TokenView::Lit(l) => {
                lemma_caps_vals_len(toks.drop_first(), vals, s.skip(l.len() as int));
            },
            TokenView::Ph(_) => {
                lemma_caps_vals_len(
                    toks.drop_first(),
                    vals.drop_first(),
                    s.skip(vals[0].len() as int),
                );
            },
        }
    }
}

/// The backtracking matcher: attempts to decompose `s` from position
/// `si` on against the tokens from `ti` on, returning the captured
/// values. Greedy: a longer value for the first placeholder is
/// preferred over any shorter one.
fn match_tokens(tokens: &Vec<Token>, ti: usize, s: &str, si: usize, n: usize) -> (r: Option<
    Vec<String>,
>)
    requires
        n == s@.len(),
        si <= n,
        ti <= tokens@.len(),
    ensures
        match r {
            Some(vals) => caps_match(
                tokens_view(tokens@).skip(ti as int),
                vals_view(vals@),
                s@.skip(si as int),
            ),
            None => forall|vals: Seq<Seq<char>>|
                !caps_match(tokens_view(tokens@).skip(ti as int), vals, s@.skip(si as int)),
        },
    decreases tokens@.len() - ti,
{
    let ghost toks = tokens_view(tokens@).skip(ti as int);
    let ghost srest = s@.skip(si as int);
    if ti == tokens.len() {
        if si == n {
            let vals: Vec<String> = Vec::new();
            proof {
                assert(toks =~= Seq::<TokenView>::empty());
                assert(vals_view(vals@) =~= Seq::<Seq<char>>::empty());
                assert(srest =~= Seq::<char>::empty());
            }
            return Some(vals);
        } else {
            proof {
                assert(toks =~= Seq::<TokenView>::empty());
                assert(srest.len() > 0);
            }
            return None;
        }
    }
    proof {
        assert(toks[0] == tokens@[ti as int]@);
        assert(toks.drop_first() =~= tokens_view(tokens@).skip(ti + 1));
    }
    match &tokens[ti] {
        Token::Literal(l) => {
            let llen: usize = l.as_str().unicode_len();
            if llen > n - si {
                proof {
                    assert(forall|vals: Seq<Seq<char>>| !caps_match(toks, vals, srest));
                }
                return None;
            }
            if !crate::text::occurs_at_exec(s, l.as_str(), si) {
                proof {
                    assert(srest.subrange(0, llen as int) =~= s@.subrange(
                        si as int,
                        si + llen,
                    ));
                }
                return None;
            }
            proof {
                assert(srest.subrange(0, llen as int) =~= s@.subrange(si as int, si + llen));
                assert(srest.skip(llen as int) =~= s@.skip(si + llen));
            }
            match match_tokens(tokens, ti + 1, s, si + llen, n) {
                Some(vals) => Some(vals),
                None => {
                    proof {
                        assert forall|vals: Seq<Seq<char>>| !caps_match(toks, vals, srest) by {
                            if caps_match(toks, vals, srest) {
                                assert(caps_match(
                                    tokens_view(tokens@).skip(ti + 1),
                                    vals,
                                    s@.skip(si + llen),
                                ));
                            }
                        }
                    }
                    None
                },
            }
        },
        Token::Placeholder(p) => {
            let ghost name = p@;
            let numeric = p.is_number();
            if si == n {
                proof {
                    assert(srest.len() == 0);
                    assert(forall|vals: Seq<Seq<char>>| !caps_match(toks, vals, srest));
                }
                return None;
            }
            let c0 = s.get_char(si);
            let first_ok = if numeric {
                crate::text::char_is_nonzero_digit(c0)
            } else {
                crate::text::char_is_lower(c0)
            };
            if !first_ok {
                proof {
                    assert forall|vals: Seq<Seq<char>>| !caps_match(toks, vals, srest) by {
                        if caps_match(toks, vals, srest) {
                            assert(vals[0][0] == srest[0]);
                        }
                    }
                }
                return None;
            }
            // the longest run of class characters from `si` on bounds
            // every candidate value length
            let mut e: usize = si + 1;
            loop
                invariant
                    n == s@.len(),
                    si + 1 <= e <= n,
                    forall|k: int|
                        si + 1 <= k < e ==> (if numeric {
                            is_digit(s@[k])
                        } else {
                            is_slug_char(s@[k])
                        }),
                ensures
                    si + 1 <= e <= n,
                    forall|k: int|
                        si + 1 <= k < e ==> (if numeric {
                            is_digit(s@[k])
                        } else {
                            is_slug_char(s@[k])
                        }),
                    e == n || (if numeric {
                        !is_digit(s@[e as int])
                    } else {
                        !is_slug_char(s@[e as int])
                    }),
                decreases n - e,
            {
                if e >= n {
                    break;
                }
                let ce = s.get_char(e);
                let ok = if numeric {
                    crate::text::char_is_digit(ce)
                } else {
                    crate::text::char_is_slug_char(ce)
                };
                if !ok {
                    break;
                }
                e = e + 1;
            }
            proof {
                assert forall|vals: Seq<Seq<char>>|
                    caps_match(toks, vals, srest) implies 1 <= vals[0].len() <= e - si by {
                    if vals[0].len() > e - si {
                        assert(e < n) by {
                            assert(vals[0].len() <= srest.len());
                        }
                        let k = e - si;
                        assert(vals[0][k as int] == srest[k as int]);
                        assert(srest[k as int] == s@[e as int]);
                        if numeric {
                            assert(is_digit(vals[0][k as int]));
                        } else {
                            assert(is_slug_char(vals[0][k as int]));
                        }
                    }
                }
            }
            let tn: usize = tokens.len();
            let mut len: usize = e - si;
            loop
                invariant
                    n == s@.len(),
                    si < n,
                    tn == tokens@.len(),
                    ti < tn,
                    len <= e - si,
                    si + 1 <= e <= n,
                    toks == tokens_view(tokens@).skip(ti as int),
                    srest == s@.skip(si as int),
                    tokens@[ti as int]@ == TokenView::Ph(name),
                    numeric == is_number_name(name),
                    if numeric {
                        is_nonzero_digit(s@[si as int])
                    } else {
                        is_lower(s@[si as int])
                    },
                    forall|k: int|
                        si + 1 <= k < e ==> (if numeric {
                            is_digit(s@[k])
                        } else {
                            is_slug_char(s@[k])
                        }),
                    forall|vals: Seq<Seq<char>>|
                        caps_match(toks, vals, srest) ==> 1 <= vals[0].len() <= len,
                ensures
                    forall|vals: Seq<Seq<char>>| !caps_match(toks, vals, srest),
                decreases len,
            {
                if len == 0 {
                    break;
                }
                match match_tokens(tokens, ti + 1, s, si + len, n) {
                    Some(rest) => {
                        let ghost rrest = rest@;
                        let v: String = s.substring_char(si, si + len).to_owned();
                        let mut vals = rest;
                        vals.insert(0, v);
                        proof {
                            let vv = vals_view(vals@);
                            assert(toks.drop_first() =~= tokens_view(tokens@).skip(ti + 1));
                            assert(vv[0] == v@);
                            assert(v@ == s@.subrange(si as int, si + len));
                            assert(vv.drop_first() =~= vals_view(rrest));
                            assert(srest.subrange(0, len as int) =~= s@.subrange(
                                si as int,
                                si + len,
                            ));
                            assert(srest.skip(len as int) =~= s@.skip(si + len));
                            // the chosen prefix is a valid class value
                            assert(value_ok(name, vv[0])) by {
                                assert(vv[0].len() == len >= 1);
                                assert(vv[0][0] == s@[si as int]);
                                assert forall|k: int| 1 <= k < len implies (if numeric {
                                    is_digit(vv[0][k])
                                } else {
                                    is_slug_char(vv[0][k])
                                }) by {
                                    assert(vv[0][k] == s@[si + k]);
                                }
                            }
                            assert(caps_match(toks, vv, srest));
                        }
                        return Some(vals);
                    },
                    None => {
                        proof {
                            assert forall|vals: Seq<Seq<char>>|
                                caps_match(toks, vals, srest) implies 1 <= vals[0].len() <= len
                                - 1 by {
                                if vals[0].len() == len {
                                    assert(caps_match(
                                        toks.drop_first(),
                                        vals.drop_first(),
                                        srest.skip(len as int),
                                    ));
                                    assert(toks.drop_first() =~= tokens_view(tokens@).skip(ti + 1));
                                    assert(srest.skip(len as int) =~= s@.skip(si + len));
                                    assert(!caps_match(
                                        tokens_view(tokens@).skip(ti + 1),
                                        vals.drop_first(),
                                        s@.skip(si + len),
                                    ));
                                }
                            }
                        }
                    },
                }
                len = len - 1;
            }
            None
        },
    }
}

/// Captures a name against a raw token list, returning the values in
/// placeholder occurrence order.
pub(crate) fn capture_values(tokens: &Vec<Token>, s: &str) -> (r: Option<Vec<String>>)
    ensures
        match r {
            Some(vals) => caps_match(tokens_view(tokens@), vals_view(vals@), s@),
            None => forall|vals: Seq<Seq<char>>| !caps_match(tokens_view(tokens@), vals, s@),
        },
{
    let n: usize = s.unicode_len();
    proof {
        assert(tokens_view(tokens@).skip(0) =~= tokens_view(tokens@));
        assert(s@.skip(0) =~= s@);
    }
    match_tokens(tokens, 0, s, 0, n)
}

/// The text one token contributes to a rendered name: literal text, or
/// the mapped value of the placeholder, empty when the mapping lacks
/// the name.
pub open spec fn token_text(t: TokenView, m: Map<Seq<char>, Seq<char>>) -> Seq<char> {
    match t {
        TokenView::Lit(l) => l,
        TokenView::Ph(name) => if m.contains_key(name) {
            m[name]
        } else {
            Seq::empty()
        },
    }
}

/// The name rendered from a token sequence and a placeholder mapping.
pub open spec fn render_spec(toks: Seq<TokenView>, m: Map<Seq<char>, Seq<char>>) -> Seq<char>
    decreases toks.len(),
{
    if toks.len() == 0 {
        Seq::empty()
    } else {
        render_spec(toks.drop_last(), m) + token_text(toks.last(), m)
    }
}

/// Rendering unfolds from the front as well.
pub proof fn lemma_render_front(toks: Seq<TokenView>, m: Map<Seq<char>, Seq<char>>)
    requires
        toks.len() > 0,
    ensures
        render_spec(toks, m) == token_text(toks[0], m) + render_spec(toks.drop_first(), m),
    decreases toks.len(),
{
    if toks.len() == 1 {
        assert(toks.drop_last() =~= Seq::<TokenView>::empty());
        assert(toks.drop_first() =~= Seq::<TokenView>::empty());
        assert(Seq::<char>::empty() + token_text(toks.last(), m) =~= token_text(toks[0], m)
            + Seq::<char>::empty());
    } else {
        lemma_render_front(toks.drop_last(), m);
        assert(toks.drop_last().drop_first() =~= toks.drop_first().drop_last());
        assert(toks.drop_first().last() == toks.last());
        assert((token_text(toks[0], m) + render_spec(toks.drop_first().drop_last(), m))
            + token_text(toks.last(), m) =~= token_text(toks[0], m) + (render_spec(
            toks.drop_first().drop_last(),
            m,
        ) + token_text(toks.last(), m)));
    }
}

/// The mapping that assigns `vals[i]` to `names[i]`; on a repeated
/// name the later position wins.
pub open spec fn map_of(names: Seq<Seq<char>>, vals: Seq<Seq<char>>) -> Map<Seq<char>, Seq<char>>
    decreases names.len(),
{
    if names.len() == 0 || vals.len() == 0 {
        Map::empty()
    } else {
        map_of(names.drop_last(), vals.drop_last()).insert(names.last(), vals.last())
    }
}

/// With one value per name, the mapping's domain is exactly the names,
/// and under uniqueness each name maps to its own value.
pub proof fn lemma_map_of_index(names: Seq<Seq<char>>, vals: Seq<Seq<char>>)
    requires
        names.len() == vals.len(),
    ensures
        forall|n: Seq<char>| #[trigger] map_of(names, vals).contains_key(n) <==> names.contains(n),
        unique_names(names) ==> forall|i: int|
            0 <= i < names.len() ==> map_of(names, vals).contains_key(names[i]) && map_of(
                names,
                vals,
            )[names[i]] == vals[i],
    decreases names.len(),
{
    if names.len() > 0 {
        lemma_map_of_index(names.drop_last(), vals.drop_last());
        assert forall|n: Seq<char>| #[trigger]
            map_of(names, vals).contains_key(n) <==> names.contains(n) by {
            if map_of(names, vals).contains_key(n) {
                if n == names.last() {
                    assert(names[names.len() - 1] == n);
                } else {
                    assert(map_of(names.drop_last(), vals.drop_last()).contains_key(n));
                    assert(names.drop_last().contains(n));
                    let k = choose|k: int|
                        0 <= k < names.drop_last().len() && names.drop_last()[k] == n;
                    assert(names[k] == n);
                }
            }
            if names.contains(n) {
                let k = choose|k: int| 0 <= k < names.len() && names[k] == n;
                if k < names.len() - 1 {
                    assert(names.drop_last()[k] == n);
                    assert(names.drop_last().contains(n));
                    assert(map_of(names.drop_last(), vals.drop_last()).contains_key(n));
                } else {
                    assert(n == names.last());
                }
            }
        }
        if unique_names(names) {
            assert(unique_names(names.drop_last())) by {
                assert(forall|i: int|
                    0 <= i < names.len() - 1 ==> names.drop_last()[i] == names[i]);
            }
            assert forall|i: int| 0 <= i < names.len() implies map_of(names, vals).contains_key(
                names[i],
            ) && map_of(names, vals)[names[i]] == vals[i] by {
                if i < names.len() - 1 {
                    assert(names.drop_last()[i] == names[i]);
                    assert(vals.drop_last()[i] == vals[i]);
                    assert(names[i] != names.last());
                }
            }
        }
    }
}

/// Capture soundness: rendering a pattern with any mapping that agrees
/// with a valid decomposition reproduces the decomposed name.
pub proof fn lemma_caps_render(
    toks: Seq<TokenView>,
    vals: Seq<Seq<char>>,
    s: Seq<char>,
    m: Map<Seq<char>, Seq<char>>,
)
    requires
        caps_match(toks, vals, s),
        forall|i: int|
            0 <= i < ph_names(toks).len() ==> m.contains_key(#[trigger] ph_names(toks)[i])
                && m[ph_names(toks)[i]] == vals[i],
    ensures
        render_spec(toks, m) == s,
    decreases toks.len(),
{
    if toks.len() == 0 {
        assert(render_spec(toks, m) =~= s);
    } else {
        lemma_render_front(toks, m);
        crate::template::lemma_ph_names_front(toks);
        match toks[0] {
            TokenView::Lit(l) => {
                lemma_caps_render(toks.drop_first(), vals, s.skip(l.len() as int), m);
                assert(render_spec(toks, m) =~= s) by {
                    assert(s =~= s.subrange(0, l.len() as int) + s.skip(l.len() as int));
                }
            },
            TokenView::Ph(name) => {
                let v0 = vals[0];
                lemma_caps_vals_len(toks, vals, s);
                assert(ph_names(toks)[0] == name);
                assert(m.contains_key(name) && m[name] == v0);
                assert forall|i: int|
                    0 <= i < ph_names(toks.drop_first()).len() implies m.contains_key(
                    #[trigger] ph_names(toks.drop_first())[i],
                ) && m[ph_names(toks.drop_first())[i]] == vals.drop_first()[i] by {
                    assert(ph_names(toks)[i + 1] == ph_names(toks.drop_first())[i]);
                    assert(vals.drop_first()[i] == vals[i + 1]);
                }
                lemma_caps_render(
                    toks.drop_first(),
                    vals.drop_first(),
                    s.skip(v0.len() as int),
                    m,
                );
                assert(render_spec(toks, m) =~= s) by {
                    assert(s =~= s.subrange(0, v0.len() as int) + s.skip(v0.len() as int));
                }
            },
        }
    }
}

/// The values a mapping assigns to a name list, in order.
pub open spec fn vals_from(names: Seq<Seq<char>>, m: Map<Seq<char>, Seq<char>>) -> Seq<Seq<char>> {
    names.map(|i: int, n: Seq<char>| m[n])
}

/// Render completeness: a name rendered from class-valid values is a
/// valid decomposition of itself, with exactly those values.
pub proof fn lemma_render_caps(toks: Seq<TokenView>, m: Map<Seq<char>, Seq<char>>)
    requires
        forall|i: int|
            0 <= i < ph_names(toks).len() ==> m.contains_key(#[trigger] ph_names(toks)[i])
                && value_ok(ph_names(toks)[i], m[ph_names(toks)[i]]),
    ensures
        caps_match(toks, vals_from(ph_names(toks), m), render_spec(toks, m)),
    decreases toks.len(),
{
    if toks.len() == 0 {
        assert(vals_from(ph_names(toks), m) =~= Seq::<Seq<char>>::empty());
    } else {
        lemma_render_front(toks, m);
        crate::template::lemma_ph_names_front(toks);
        let rest = toks.drop_first();
        assert forall|i: int|
            0 <= i < ph_names(rest).len() implies m.contains_key(
            #[trigger] ph_names(rest)[i],
        ) && value_ok(ph_names(rest)[i], m[ph_names(rest)[i]]) by {
            match toks[0] {
                TokenView::Lit(_) => {
                    assert(ph_names(toks)[i] == ph_names(rest)[i]);
                },
                TokenView::Ph(_) => {
                    assert(ph_names(toks)[i + 1] == ph_names(rest)[i]);
                },
            }
        }
        lemma_render_caps(rest, m);
        let r = render_spec(toks, m);
        match toks[0] {
            TokenView::Lit(l) => {
                assert(vals_from(ph_names(toks), m) =~= vals_from(ph_names(rest), m));
                assert(r.subrange(0, l.len() as int) =~= l);
                assert(r.skip(l.len() as int) =~= render_spec(rest, m));
            },
            TokenView::Ph(name) => {
                assert(ph_names(toks)[0] == name);
                let v0 = m[name];
                assert(value_ok(name, v0));
                let vs = vals_from(ph_names(toks), m);
                assert(vs[0] == v0);
                assert(vs.drop_first() =~= vals_from(ph_names(rest), m));
                assert(r.subrange(0, v0.len() as int) =~= v0);
                assert(r.skip(v0.len() as int) =~= render_spec(rest, m));
            },
        }
    }
}

/// Every character of a class-valid value is a slug character.
pub proof fn lemma_value_sigma(name: Seq<char>, v: Seq<char>)
    requires
        value_ok(name, v),
    ensures
        forall|k: int| 0 <= k < v.len() ==> is_slug_char(v[k]),
{
}

/// In any decomposition, each value is class-valid for its
/// placeholder's name.
pub proof fn lemma_caps_value_ok(toks: Seq<TokenView>, vals: Seq<Seq<char>>, s: Seq<char>)
    requires
        caps_match(toks, vals, s),
    ensures
        forall|i: int|
            0 <= i < ph_names(toks).len() ==> value_ok(#[trigger] ph_names(toks)[i], vals[i]),
    decreases toks.len(),
{
    if toks.len() > 0 {
        crate::template::lemma_ph_names_front(toks);
        match toks[0] {
            TokenView::Lit(l) => {
                lemma_caps_value_ok(toks.drop_first(), vals, s.skip(l.len() as int));
            },
            TokenView::Ph(name) => {
                lemma_caps_value_ok(
                    toks.drop_first(),
                    vals.drop_first(),
                    s.skip(vals[0].len() as int),
                );
                lemma_caps_vals_len(toks, vals, s);
                assert forall|i: int|
                    0 <= i < ph_names(toks).len() implies value_ok(
                    #[trigger] ph_names(toks)[i],
                    vals[i],
                ) by {
                    if i > 0 {
                        assert(ph_names(toks)[i] == ph_names(toks.drop_first())[i - 1]);
                        assert(vals[i] == vals.drop_first()[i - 1]);
                    }
                }
            },
        }
    }
}

/// The concatenated text of the literal tokens of an all-literal
/// token sequence.
pub open spec fn concat_lits(toks: Seq<TokenView>) -> Seq<char>
    decreases toks.len(),
{
    if toks.len() == 0 {
        Seq::empty()
    } else {
        concat_lits(toks.drop_last()) + (match toks.last() {
            TokenView::Lit(l) => l,
            TokenView::Ph(_) => Seq::empty(),
        })
    }
}

/// A literal containing at least one non-slug character: a separator
/// that no placeholder value can cross.
pub open spec fn lit_has_sep(l: Seq<char>) -> bool {
    exists|k: int| 0 <= k < l.len() && !is_slug_char(l[k])
}

/// A separated token sequence: whenever only literals stand between a
/// placeholder and the next one, one of them holds a separator
/// character. Matching such a pattern decomposes a name uniquely.
pub open spec fn sep_ok(toks: Seq<TokenView>) -> bool
    decreases toks.len(),
{
    if toks.len() == 0 {
        true
    } else {
        (match toks[0] {
            TokenView::Lit(_) => true,
            TokenView::Ph(_) => {
                let rest = toks.drop_first();
                let e = lit_prefix_end(rest);
                e < rest.len() ==> exists|k: int|
                    0 <= k < e && rest[k] is Lit && lit_has_sep(rest[k]->Lit_0)
            },
        }) && sep_ok(toks.drop_first())
    }
}

/// The number of leading literal tokens.
pub open spec fn lit_prefix_end(toks: Seq<TokenView>) -> int
    decreases toks.len(),
{
    if toks.len() == 0 {
        0
    } else {
        match toks[0] {
            TokenView::Lit(_) => 1 + lit_prefix_end(toks.drop_first()),
            TokenView::Ph(_) => 0,
        }
    }
}

pub proof fn lemma_lit_prefix_end(toks: Seq<TokenView>)
    ensures
        0 <= lit_prefix_end(toks) <= toks.len(),
        forall|k: int| 0 <= k < lit_prefix_end(toks) ==> toks[k] is Lit,
        lit_prefix_end(toks) < toks.len() ==> toks[lit_prefix_end(toks)] is Ph,
    decreases toks.len(),
{
    if toks.len() > 0 {
        lemma_lit_prefix_end(toks.drop_first());
        match toks[0] {
            TokenView::Lit(_) => {
                let e = lit_prefix_end(toks);
                assert forall|k: int| 0 <= k < e implies toks[k] is Lit by {
                    if k > 0 {
                        assert(toks.drop_first()[k - 1] == toks[k]);
                    }
                }
                if e < toks.len() {
                    assert(toks.drop_first()[e - 1] == toks[e]);
                }
            },
            TokenView::Ph(_) => {},
        }
    }
}

/// Peeling `q` leading literal tokens off a decomposition: the name
/// starts with their concatenated text, and the remainder decomposes
/// against the remaining tokens.
pub proof fn lemma_caps_lits(toks: Seq<TokenView>, vals: Seq<Seq<char>>, s: Seq<char>, q: int)
    requires
        caps_match(toks, vals, s),
        0 <= q <= toks.len(),
        forall|k: int| 0 <= k < q ==> toks[k] is Lit,
    ensures
        concat_lits(toks.take(q)).len() <= s.len(),
        s.subrange(0, concat_lits(toks.take(q)).len() as int) == concat_lits(toks.take(q)),
        caps_match(toks.skip(q), vals, s.skip(concat_lits(toks.take(q)).len() as int)),
    decreases q,
{
    if q == 0 {
        assert(toks.take(0) =~= Seq::<TokenView>::empty());
        assert(concat_lits(toks.take(0)) =~= Seq::<char>::empty());
        assert(s.subrange(0, 0) =~= Seq::<char>::empty());
        assert(toks.skip(0) =~= toks);
        assert(s.skip(0) =~= s);
    } else {
        let l = toks[0]->Lit_0;
        lemma_caps_lits(toks.drop_first(), vals, s.skip(l.len() as int), q - 1);
        assert(forall|k: int| 0 <= k < q - 1 ==> toks.drop_first()[k] is Lit) by {
            assert(forall|k: int| 0 <= k < q - 1 ==> toks.drop_first()[k] == toks[k + 1]);
        }
        let c1 = concat_lits(toks.drop_first().take(q - 1));
        let c = concat_lits(toks.take(q));
        assert(c =~= l + c1) by {
            lemma_concat_lits_front(toks.take(q));
            assert(toks.take(q)[0] == toks[0]);
            assert(toks.take(q).drop_first() =~= toks.drop_first().take(q - 1));
        }
        assert(s.subrange(0, c.len() as int) =~= c) by {
            assert(s.subrange(0, l.len() as int) == l);
            assert(s.skip(l.len() as int).subrange(0, c1.len() as int) == c1);
        }
        assert(toks.skip(q) =~= toks.drop_first().skip(q - 1));
        assert(s.skip(c.len() as int) =~= s.skip(l.len() as int).skip(c1.len() as int));
    }
}

/// Literal concatenation unfolds from the front.
pub proof fn lemma_concat_lits_front(toks: Seq<TokenView>)
    requires
        toks.len() > 0,
    ensures
        concat_lits(toks) == (match toks[0] {
            TokenView::Lit(l) => l,
            TokenView::Ph(_) => Seq::empty(),
        }) + concat_lits(toks.drop_first()),
    decreases toks.len(),
{
    let head = (match toks[0] {
        TokenView::Lit(l) => l,
        TokenView::Ph(_) => Seq::<char>::empty(),
    });
    if toks.len() == 1 {
        assert(toks.drop_last() =~= Seq::<TokenView>::empty());
        assert(toks.drop_first() =~= Seq::<TokenView>::empty());
        assert(Seq::<char>::empty() + (match toks.last() {
            TokenView::Lit(l) => l,
            TokenView::Ph(_) => Seq::<char>::empty(),
        }) =~= head + Seq::<char>::empty());
    } else {
        lemma_concat_lits_front(toks.drop_last());
        assert(toks.drop_last()[0] == toks[0]);
        assert(toks.drop_last().drop_first() =~= toks.drop_first().drop_last());
        assert(toks.drop_first().last() == toks.last());
        let tail_part = (match toks.last() {
            TokenView::Lit(l) => l,
            TokenView::Ph(_) => Seq::<char>::empty(),
        });
        assert((head + concat_lits(toks.drop_first().drop_last())) + tail_part =~= head + (
        concat_lits(toks.drop_first().drop_last()) + tail_part));
    }
}

/// A separator somewhere in the leading literals puts a non-slug
/// character into their concatenated text.
pub proof fn lemma_concat_has_sep(toks: Seq<TokenView>, q: int)
    requires
        0 <= q <= toks.len(),
        exists|k: int| 0 <= k < q && toks[k] is Lit && lit_has_sep(toks[k]->Lit_0),
    ensures
        exists|j: int|
            0 <= j < concat_lits(toks.take(q)).len() && !is_slug_char(concat_lits(toks.take(q))[j]),
    decreases q,
{
    let k = choose|k: int| 0 <= k < q && toks[k] is Lit && lit_has_sep(toks[k]->Lit_0);
    let c = concat_lits(toks.take(q));
    let c1 = concat_lits(toks.take(q - 1));
    assert(toks.take(q).drop_last() =~= toks.take(q - 1));
    if k == q - 1 {
        let l = toks[k]->Lit_0;
        let idx = choose|idx: int| 0 <= idx < l.len() && !is_slug_char(l[idx]);
        assert(toks.take(q).last() == toks[k]);
        assert(c[c1.len() + idx] == l[idx]);
    } else {
        lemma_concat_has_sep(toks, q - 1);
        let j = choose|j: int| 0 <= j < c1.len() && !is_slug_char(c1[j]);
        assert(c[j] == c1[j]);
    }
}

/// Core of uniqueness: the first value of the leading placeholder
/// cannot be strictly shorter in one decomposition than in another.
proof fn lemma_ph_val_len_ge(toks: Seq<TokenView>, v1: Seq<Seq<char>>, v2: Seq<Seq<char>>, s: Seq<char>)
    requires
        toks.len() > 0,
        toks[0] is Ph,
        caps_match(toks, v1, s),
        caps_match(toks, v2, s),
        sep_ok(toks),
    ensures
        v1[0].len() >= v2[0].len(),
{
    if v1[0].len() >= v2[0].len() {
    } else {
        lemma_ph_val_len_core(toks, v1, v2, s);
    }
}

/// The contradiction inside [`lemma_ph_val_len_ge`]: with a strictly
/// shorter first value, the separator character between the leading
/// placeholder and the next lands on a slug position.
proof fn lemma_ph_val_len_core(toks: Seq<TokenView>, v1: Seq<Seq<char>>, v2: Seq<Seq<char>>, s: Seq<char>)
    requires
        toks.len() > 0,
        toks[0] is Ph,
        caps_match(toks, v1, s),
        caps_match(toks, v2, s),
        sep_ok(toks),
        v1[0].len() < v2[0].len(),
    ensures
        v1[0].len() >= v2[0].len(),
{
    let name = toks[0]->Ph_0;
    let rest = toks.drop_first();
    let a = v1[0].len() as int;
    let b = v2[0].len() as int;
    lemma_value_sigma(name, v1[0]);
    lemma_value_sigma(name, v2[0]);
    // every position below `b` holds a slug character
    assert(forall|k: int| 0 <= k < b ==> is_slug_char(s[k])) by {
        assert(forall|k: int| 0 <= k < b ==> s[k] == v2[0][k]);
    }
    lemma_lit_prefix_end(rest);
    let e = lit_prefix_end(rest);
    lemma_caps_lits(rest, v1.drop_first(), s.skip(a), e);
    lemma_caps_lits(rest, v2.drop_first(), s.skip(b), e);
    let c = concat_lits(rest.take(e));
    let cl = c.len() as int;
    if e == rest.len() {
        // no later placeholder: the remaining length is fixed by the
        // literals alone, so both values have the same length
        assert(rest.skip(e) =~= Seq::<TokenView>::empty());
        assert(s.skip(a).skip(cl).len() == 0);
        assert(s.skip(b).skip(cl).len() == 0);
        assert(s.len() == a + cl);
        assert(s.len() == b + cl);
    } else {
        // a separator stands between the leading placeholder and the
        // next one; it pins the boundary of the first value
        assert(rest[e] is Ph);
        assert(exists|k: int| 0 <= k < e && rest[k] is Lit && lit_has_sep(rest[k]->Lit_0));
        lemma_concat_has_sep(rest, e);
        // the earliest non-slug character of the literal text
        let g = least_non_slug(c, 0);
        lemma_least_non_slug(c, 0);
        assert(0 <= g < cl);
        assert(!is_slug_char(c[g]));
        assert(forall|j: int| 0 <= j < g ==> is_slug_char(c[j]));
        // both decompositions copy the literal text after their value
        assert(forall|j: int| 0 <= j < cl ==> s[a + j] == c[j]) by {
            assert(forall|j: int| 0 <= j < cl ==> s.skip(a)[j] == s[a + j]);
            assert(forall|j: int| 0 <= j < cl ==> s.skip(a).subrange(0, cl)[j] == s.skip(a)[j]);
        }
        assert(forall|j: int| 0 <= j < cl ==> s[b + j] == c[j]) by {
            assert(forall|j: int| 0 <= j < cl ==> s.skip(b)[j] == s[b + j]);
            assert(forall|j: int| 0 <= j < cl ==> s.skip(b).subrange(0, cl)[j] == s.skip(b)[j]);
        }
        assert(!is_slug_char(s[a + g]));
        if a + g < b {
            assert(is_slug_char(s[a + g]));
        } else {
            assert(0 <= a + g - b < g);
            assert(s[b + (a + g - b)] == c[a + g - b]);
            assert(is_slug_char(c[a + g - b]));
        }
    }
}

/// The position of the first non-slug character at or after `i`, or
/// the length of `cs` if every character from `i` on is a slug
/// character.
pub open spec fn least_non_slug(cs: Seq<char>, i: int) -> int
    decreases cs.len() - i when 0 <= i <= cs.len()
{
    if i >= cs.len() {
        i
    } else if !is_slug_char(cs[i]) {
        i
    } else {
        least_non_slug(cs, i + 1)
    }
}

pub proof fn lemma_least_non_slug(cs: Seq<char>, i: int)
    requires
        0 <= i <= cs.len(),
    ensures
        i <= least_non_slug(cs, i) <= cs.len(),
        least_non_slug(cs, i) < cs.len() ==> !is_slug_char(cs[least_non_slug(cs, i)]),
        forall|j: int| i <= j < least_non_slug(cs, i) ==> is_slug_char(cs[j]),
        (exists|j: int| i <= j < cs.len() && !is_slug_char(cs[j])) ==> least_non_slug(cs, i)
            < cs.len(),
    decreases cs.len() - i,
{
    if i < cs.len() && is_slug_char(cs[i]) {
        lemma_least_non_slug(cs, i + 1);
    }
}

/// Uniqueness of decomposition for separated patterns.
pub proof fn lemma_caps_unique(toks: Seq<TokenView>, v1: Seq<Seq<char>>, v2: Seq<Seq<char>>, s: Seq<char>)
    requires
        caps_match(toks, v1, s),
        caps_match(toks, v2, s),
        sep_ok(toks),
    ensures
        v1 == v2,
    decreases toks.len(),
{
    if toks.len() == 0 {
        assert(v1 =~= v2);
    } else {
        match toks[0] {
            TokenView::Lit(l) => {
                lemma_caps_unique(toks.drop_first(), v1, v2, s.skip(l.len() as int));
            },
            TokenView::Ph(_) => {
                if v1[0].len() < v2[0].len() {
                    lemma_ph_val_len_ge(toks, v1, v2, s);
                }
                if v2[0].len() < v1[0].len() {
                    lemma_ph_val_len_ge(toks, v2, v1, s);
                }
                assert(v1[0].len() == v2[0].len());
                assert(v1[0] == s.subrange(0, v1[0].len() as int));
                assert(v2[0] == s.subrange(0, v2[0].len() as int));
                assert(v1[0] == v2[0]);
                lemma_caps_unique(
                    toks.drop_first(),
                    v1.drop_first(),
                    v2.drop_first(),
                    s.skip(v1[0].len() as int),
                );
                assert(v1 =~= v2) by {
                    assert(v1.len() == 1 + v1.drop_first().len());
                    assert(v2.len() == 1 + v2.drop_first().len());
                    assert(forall|k: int| 1 <= k < v1.len() ==> v1[k] == v1.drop_first()[k - 1]);
                    assert(forall|k: int| 1 <= k < v2.len() ==> v2[k] == v2.drop_first()[k - 1]);
                }
            },
        }
    }
}

/// A token sequence without placeholders is all literal spans.
proof fn lemma_no_names_all_lits(toks: Seq<TokenView>, k: int)
    requires
        ph_names(toks).len() == 0,
        0 <= k < toks.len(),
    ensures
        toks[k] is Lit,
    decreases toks.len(),
{
    if toks.len() > 0 {
        match toks.last() {
            TokenView::Lit(_) => {
                if k < toks.len() - 1 {
                    lemma_no_names_all_lits(toks.drop_last(), k);
                }
            },
            TokenView::Ph(_) => {},
        }
    }
}

/// The zero-placeholder law: a pattern without placeholders matches
/// exactly one name, the concatenation of its literal text.
pub proof fn lemma_no_placeholder_exact(toks: Seq<TokenView>, s: Seq<char>)
    requires
        ph_names(toks).len() == 0,
    ensures
        (exists|vals: Seq<Seq<char>>| caps_match(toks, vals, s)) <==> s == render_spec(
            toks,
            Map::<Seq<char>, Seq<char>>::empty(),
        ),
{
    let m = Map::<Seq<char>, Seq<char>>::empty();
    assert(forall|k: int| 0 <= k < toks.len() ==> toks[k] is Lit) by {
        assert forall|k: int| 0 <= k < toks.len() implies toks[k] is Lit by {
            lemma_no_names_all_lits(toks, k);
        }
    }
    // the one matching name is the rendered literal text
    lemma_render_caps(toks, m);
    assert(vals_from(ph_names(toks), m) =~= Seq::<Seq<char>>::empty());
    if exists|vals: Seq<Seq<char>>| caps_match(toks, vals, s) {
        let vals = choose|vals: Seq<Seq<char>>| caps_match(toks, vals, s);
        lemma_caps_render(toks, vals, s, m);
    }
}

/// The round-trip law: take a name `f` that a source pattern
/// decomposes with values `vals`, render those values through a target
/// pattern with the same placeholder set, and capture the rendered
/// name against the target. The target capture succeeds, and rendering
/// any such capture back through the source pattern reproduces `f`
/// exactly. The target pattern must be separated, else its capture
/// could split the rendered name differently.
pub proof fn lemma_round_trip(
    s_toks: Seq<TokenView>,
    t_toks: Seq<TokenView>,
    vals: Seq<Seq<char>>,
    f: Seq<char>,
)
    requires
        caps_match(s_toks, vals, f),
        unique_names(ph_names(s_toks)),
        unique_names(ph_names(t_toks)),
        forall|n: Seq<char>|
            ph_names(s_toks).contains(n) <==> ph_names(t_toks).contains(n),
        sep_ok(t_toks),
    ensures
        caps_match(
            t_toks,
            vals_from(ph_names(t_toks), map_of(ph_names(s_toks), vals)),
            render_spec(t_toks, map_of(ph_names(s_toks), vals)),
        ),
        forall|vals2: Seq<Seq<char>>|
            caps_match(t_toks, vals2, render_spec(t_toks, map_of(ph_names(s_toks), vals)))
                ==> render_spec(s_toks, map_of(ph_names(t_toks), vals2)) == f,
{
    let sn = ph_names(s_toks);
    let tn = ph_names(t_toks);
    let m = map_of(sn, vals);
    lemma_caps_vals_len(s_toks, vals, f);
    lemma_caps_value_ok(s_toks, vals, f);
    lemma_map_of_index(sn, vals);
    assert forall|i: int|
        0 <= i < tn.len() implies m.contains_key(#[trigger] tn[i]) && value_ok(tn[i], m[tn[i]]) by {
        assert(tn.contains(tn[i]));
        assert(sn.contains(tn[i]));
        let j = choose|j: int| 0 <= j < sn.len() && sn[j] == tn[i];
        assert(m.contains_key(sn[j]) && m[sn[j]] == vals[j]);
        assert(value_ok(sn[j], vals[j]));
    }
    lemma_render_caps(t_toks, m);
    let g = render_spec(t_toks, m);
    assert forall|vals2: Seq<Seq<char>>|
        caps_match(t_toks, vals2, g) implies render_spec(s_toks, map_of(tn, vals2)) == f by {
        lemma_caps_unique(t_toks, vals2, vals_from(tn, m), g);
        lemma_caps_vals_len(t_toks, vals2, g);
        lemma_map_of_index(tn, vals2);
        let m2 = map_of(tn, vals2);
        assert forall|i: int|
            0 <= i < sn.len() implies m2.contains_key(#[trigger] sn[i]) && m2[sn[i]]
            == vals[i] by {
            assert(sn.contains(sn[i]));
            assert(tn.contains(sn[i]));
            let j = choose|j: int| 0 <= j < tn.len() && tn[j] == sn[i];
            assert(m2.contains_key(tn[j]) && m2[tn[j]] == vals2[j]);
            assert(vals2[j] == vals_from(tn, m)[j]);
            assert(vals_from(tn, m)[j] == m[tn[j]]);
            assert(m[sn[i]] == vals[i]);
        }
        lemma_caps_render(s_toks, vals, f, m2);
    }
}

/// A placeholder-to-value mapping extracted by a successful capture:
/// one entry per placeholder of the pattern, in occurrence order.
pub struct Bindings {
    pub entries: Vec<(Placeholder, String)>,
}

impl Bindings {
    /// The names of the entries, in order.
    pub open spec fn names(&self) -> Seq<Seq<char>> {
        self.entries@.map(|i: int, e: (Placeholder, String)| e.0@)
    }

    /// The values of the entries, in order.
    pub open spec fn vals(&self) -> Seq<Seq<char>> {
        self.entries@.map(|i: int, e: (Placeholder, String)| e.1@)
    }

    /// Well-formedness: no name bound twice.
    pub open spec fn wf(&self) -> bool {
        unique_names(self.names())
    }

    /// The value bound to `name`, if any.
    pub fn get(&self, name: &str) -> (r: Option<&String>)
        requires
            self.wf(),
        ensures
            match r {
                Some(v) => self@.contains_key(name@) && v@ == self@[name@],
                None => !self@.contains_key(name@),
            },
    {
        proof {
            lemma_map_of_index(self.names(), self.vals());
        }
        let n: usize = self.entries.len();
        let mut i: usize = 0;
        while i < n
            invariant
                self.wf(),
                n == self.entries@.len(),
                i <= n,
                forall|k: int| 0 <= k < i ==> self.names()[k] != name@,
            decreases n - i,
        {
            if crate::text::str_eq(self.entries[i].0.name(), name) {
                proof {
                    lemma_map_of_index(self.names(), self.vals());
                    assert(self.names()[i as int] == name@);
                    assert(self@.contains_key(self.names()[i as int]));
                    assert(self@[self.names()[i as int]] == self.vals()[i as int]);
                }
                return Some(&self.entries[i].1);
            }
            i = i + 1;
        }
        proof {
            if self@.contains_key(name@) {
                let k = choose|k: int| 0 <= k < self.names().len() && self.names()[k] == name@;
                assert(false);
            }
        }
        None
    }
}

impl View for Bindings {
    type V = Map<Seq<char>, Seq<char>>;

    open spec fn view(&self) -> Map<Seq<char>, Seq<char>> {
        map_of(self.names(), self.vals())
    }
}

/// A compiled extraction rule: the token sequence of a pattern together
/// with its placeholders in occurrence order.
#[derive(Debug)]
pub struct PatternMatcher {
    tokens: Vec<Token>,
    order: Vec<Placeholder>,
}

impl PatternMatcher {
    /// The token views this matcher extracts against.
    pub closed spec fn toks(&self) -> Seq<TokenView> {
        tokens_view(self.tokens@)
    }

    /// The placeholder names, in occurrence order.
    pub closed spec fn names(&self) -> Seq<Seq<char>> {
        names_view(self.order@)
    }

    /// Well-formedness: the order list is the duplicate-free
    /// placeholder occurrence list of the tokens.
    pub open spec fn wf(&self) -> bool {
        &&& self.names() == ph_names(self.toks())
        &&& unique_names(self.names())
    }

    /// Compiles a pattern into its extraction rule. Compilation never
    /// fails on a well-formed pattern.
    pub fn new(pattern: &RefactorPattern) -> (r: Result<Self, crate::template::PatternError>)
        requires
            pattern.wf(),
        ensures
            r is Ok,
            r->Ok_0.wf(),
            r->Ok_0.toks() == pattern.toks(),
            r->Ok_0.names() == pattern.names(),
    {
        let n: usize = pattern.tokens.len();
        let mut tokens: Vec<Token> = Vec::new();
        let mut order: Vec<Placeholder> = Vec::new();
        let mut i: usize = 0;
        while i < n
            invariant
                n == pattern.tokens@.len(),
                i <= n,
                tokens_view(tokens@) =~= tokens_view(pattern.tokens@.take(i as int)),
            decreases n - i,
        {
            let ghost before = tokens@;
            match &pattern.tokens[i] {
                Token::Literal(l) => {
                    tokens.push(Token::Literal(l.clone()));
                },
                Token::Placeholder(p) => {
                    tokens.push(Token::Placeholder(p.duplicate()));
                },
            }
            proof {
                assert(tokens@.last()@ == pattern.tokens@[i as int]@);
                assert(tokens@.drop_last() =~= before);
                assert(tokens_view(tokens@) =~= tokens_view(before).push(
                    pattern.tokens@[i as int]@,
                ));
                assert(tokens_view(pattern.tokens@.take(i + 1)) =~= tokens_view(
                    pattern.tokens@.take(i as int),
                ).push(pattern.tokens@[i as int]@));
            }
            i = i + 1;
        }
        let m: usize = pattern.placeholders.len();
        let mut j: usize = 0;
        while j < m
            invariant
                m == pattern.placeholders@.len(),
                j <= m,
                names_view(order@) =~= names_view(pattern.placeholders@.take(j as int)),
            decreases m - j,
        {
            let ghost obefore = order@;
            order.push(pattern.placeholders[j].duplicate());
            proof {
                assert(order@.last()@ == pattern.placeholders@[j as int]@);
                assert(order@.drop_last() =~= obefore);
                assert(names_view(order@) =~= names_view(obefore).push(
                    pattern.placeholders@[j as int]@,
                ));
                assert(names_view(pattern.placeholders@.take(j + 1)) =~= names_view(
                    pattern.placeholders@.take(j as int),
                ).push(pattern.placeholders@[j as int]@));
            }
            j = j + 1;
        }
        proof {
            assert(pattern.tokens@.take(n as int) =~= pattern.tokens@);
            assert(pattern.placeholders@.take(m as int) =~= pattern.placeholders@);
        }
        Ok(PatternMatcher { tokens, order })
    }

    /// Extracts the placeholder values from a candidate name, or `None`
    /// when the name does not fit the pattern in any way.
    pub fn captures(&self, value: &str) -> (r: Option<Bindings>)
        requires
            self.wf(),
        ensures
            match r {
                Some(b) => {
                    &&& b.wf()
                    &&& b.names() == self.names()
                    &&& caps_match(self.toks(), b.vals(), value@)
                },
                None => forall|vals: Seq<Seq<char>>| !caps_match(self.toks(), vals, value@),
            },
    {
        let n: usize = value.unicode_len();
        proof {
            assert(tokens_view(self.tokens@).skip(0) =~= self.toks());
            assert(value@.skip(0) =~= value@);
        }
        let vals = match match_tokens(&self.tokens, 0, value, 0, n) {
            Some(vals) => vals,
            None => {
                return None;
            },
        };
        proof {
            lemma_caps_vals_len(self.toks(), vals_view(vals@), value@);
        }
        let m: usize = self.order.len();
        let mut entries: Vec<(Placeholder, String)> = Vec::new();
        let mut i: usize = 0;
        while i < m
            invariant
                m == self.order@.len(),
                m == vals@.len(),
                i <= m,
                entries@.len() == i,
                forall|k: int| 0 <= k < i ==> entries@[k].0@ == names_view(self.order@)[k],
                forall|k: int| 0 <= k < i ==> entries@[k].1@ == vals_view(vals@)[k],
            decreases m - i,
        {
            entries.push((self.order[i].duplicate(), vals[i].clone()));
            i = i + 1;
        }
        let b = Bindings { entries };
        proof {
            assert(b.names() =~= self.names());
            assert(b.vals() =~= vals_view(vals@));
        }
        Some(b)
    }
}

/// Renders a target name by substituting each placeholder token with
/// its bound value; an unbound placeholder renders as empty text.
pub fn apply_pattern(pattern: &RefactorPattern, values: &Bindings) -> (r: String)
    requires
        values.wf(),
    ensures
        r@ == render_spec(pattern.toks(), values@),
{
    let n: usize = pattern.tokens.len();
    let mut out = String::new();
    let mut i: usize = 0;
    while i < n
        invariant
            values.wf(),
            n == pattern.tokens@.len(),
            i <= n,
            out@ == render_spec(tokens_view(pattern.tokens@.take(i as int)), values@),
        decreases n - i,
    {
        proof {
            assert(tokens_view(pattern.tokens@.take(i + 1)).drop_last() =~= tokens_view(
                pattern.tokens@.take(i as int),
            ));
            assert(tokens_view(pattern.tokens@.take(i + 1)).last() == pattern.tokens@[i as int]@);
        }
        match &pattern.tokens[i] {
            Token::Literal(l) => {
                out.append(l.as_str());
            },
            Token::Placeholder(p) => {
                match values.get(p.name()) {
                    Some(v) => {
                        out.append(v.as_str());
                    },
                    None => {
                        proof {
                            assert(token_text(pattern.tokens@[i as int]@, values@) =~= Seq::<
                                char,
                            >::empty());
                            assert(out@ + Seq::<char>::empty() =~= out@);
                        }
                    },
                }
            },
        }
        i = i + 1;
    }
    proof {
        assert(pattern.tokens@.take(n as int) =~= pattern.tokens@);
    }
    out
}

} // verus!
