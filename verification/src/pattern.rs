//! The two fixed canonical filename grammars used for validation and
//! statistics: the feature-document shape
//! `{repo}.feat.{feature}.{type}.{variant}.v{N}.md` and the procedure
//! shape `{repo}.sop.{name}.v{N}.md`, with a short list of exempt
//! names that deliberately follow neither.

use vstd::prelude::*;

use crate::matcher::caps_match;
use crate::matcher::capture_values;
use crate::template::Placeholder;
use crate::template::Token;
use crate::template::TokenView;
use crate::template::tokens_view;
use crate::text::decimal_value;
use crate::text::is_digit;
use crate::text::parse_u32_digits;
use crate::text::str_eq;

verus! {

/// A filename parsed against one of the canonical grammars.
#[derive(Debug, Clone, PartialEq, Eq)]
pub enum ParsedFilename {
    Feat(FeatFilename),
    Sop(SopFilename),
}

/// The fields of a feature-document filename.
#[derive(Debug, Clone, PartialEq, Eq)]
pub struct FeatFilename {
    pub repo: String,
    pub feature: String,
    pub doc_type: String,
    pub variant: String,
    pub version: u32,
}

/// The fields of a procedure filename.
#[derive(Debug, Clone, PartialEq, Eq)]
pub struct SopFilename {
    pub repo: String,
    pub name: String,
    pub version: u32,
}

/// The token shape of the feature grammar.
pub open spec fn feat_toks() -> Seq<TokenView> {
    seq![
        TokenView::Ph("repo"@),
        TokenView::Lit(".feat."@),
        TokenView::Ph("feature"@),
        TokenView::Lit("."@),
        TokenView::Ph("type"@),
        TokenView::Lit("."@),
        TokenView::Ph("variant"@),
        TokenView::Lit(".v"@),
        TokenView::Ph("N"@),
        TokenView::Lit(".md"@),
    ]
}

/// The token shape of the procedure grammar.
pub open spec fn sop_toks() -> Seq<TokenView> {
    seq![
        TokenView::Ph("repo"@),
        TokenView::Lit(".sop."@),
        TokenView::Ph("name"@),
        TokenView::Lit(".v"@),
        TokenView::Ph("N"@),
        TokenView::Lit(".md"@),
    ]
}

/// The name fits the feature grammar.
pub open spec fn is_feat_name(s: Seq<char>) -> bool {
    exists|vals: Seq<Seq<char>>| caps_match(feat_toks(), vals, s)
}

/// The name fits the procedure grammar.
pub open spec fn is_sop_name(s: Seq<char>) -> bool {
    exists|vals: Seq<Seq<char>>| caps_match(sop_toks(), vals, s)
}

/// The feature grammar's token list.
fn feat_tokens() -> (r: Vec<Token>)
    ensures
        tokens_view(r@) == feat_toks(),
{
    let mut v: Vec<Token> = Vec::new();
    v.push(Token::Placeholder(Placeholder::from_name("repo".to_owned())));
    v.push(Token::Literal(".feat.".to_owned()));
    v.push(Token::Placeholder(Placeholder::from_name("feature".to_owned())));
    v.push(Token::Literal(".".to_owned()));
    v.push(Token::Placeholder(Placeholder::from_name("type".to_owned())));
    v.push(Token::Literal(".".to_owned()));
    v.push(Token::Placeholder(Placeholder::from_name("variant".to_owned())));
    v.push(Token::Literal(".v".to_owned()));
    v.push(Token::Placeholder(Placeholder::from_name("N".to_owned())));
    v.push(Token::Literal(".md".to_owned()));
    proof {
        assert(v@.len() == 10);
        assert(v@[0]@ == TokenView::Ph("repo"@));
        assert(v@[1]@ == TokenView::Lit(".feat."@));
        assert(v@[2]@ == TokenView::Ph("feature"@));
        assert(v@[3]@ == TokenView::Lit("."@));
        assert(v@[4]@ == TokenView::Ph("type"@));
        assert(v@[5]@ == TokenView::Lit("."@));
        assert(v@[6]@ == TokenView::Ph("variant"@));
        assert(v@[7]@ == TokenView::Lit(".v"@));
        assert(v@[8]@ == TokenView::Ph("N"@));
        assert(v@[9]@ == TokenView::Lit(".md"@));
        assert(tokens_view(v@) =~= feat_toks());
    }
    v
}

/// The placeholder names of the feature grammar, in occurrence order.
proof fn lemma_feat_ph_names()
    ensures
        crate::template::ph_names(feat_toks()) =~= seq![
            "repo"@,
            "feature"@,
            "type"@,
            "variant"@,
            "N"@,
        ],
{
    let a1: Seq<TokenView> = seq![TokenView::Ph("repo"@)];
    let a2 = a1.push(TokenView::Lit(".feat."@));
    let a3 = a2.push(TokenView::Ph("feature"@));
    let a4 = a3.push(TokenView::Lit("."@));
    let a5 = a4.push(TokenView::Ph("type"@));
    let a6 = a5.push(TokenView::Lit("."@));
    let a7 = a6.push(TokenView::Ph("variant"@));
    let a8 = a7.push(TokenView::Lit(".v"@));
    let a9 = a8.push(TokenView::Ph("N"@));
    let a10 = a9.push(TokenView::Lit(".md"@));
    assert(a1.drop_last() =~= Seq::<TokenView>::empty());
    assert(crate::template::ph_names(Seq::<TokenView>::empty()) =~= Seq::<Seq<char>>::empty());
    assert(crate::template::ph_names(a1) =~= seq!["repo"@]);
    assert(a2.drop_last() =~= a1);
    assert(crate::template::ph_names(a2) =~= seq!["repo"@]);
    assert(a3.drop_last() =~= a2);
    assert(crate::template::ph_names(a3) =~= seq!["repo"@, "feature"@]);
    assert(a4.drop_last() =~= a3);
    assert(crate::template::ph_names(a4) =~= seq!["repo"@, "feature"@]);
    assert(a5.drop_last() =~= a4);
    assert(crate::template::ph_names(a5) =~= seq!["repo"@, "feature"@, "type"@]);
    assert(a6.drop_last() =~= a5);
    assert(crate::template::ph_names(a6) =~= seq!["repo"@, "feature"@, "type"@]);
    assert(a7.drop_last() =~= a6);
    assert(crate::template::ph_names(a7) =~= seq!["repo"@, "feature"@, "type"@, "variant"@]);
    assert(a8.drop_last() =~= a7);
    assert(crate::template::ph_names(a8) =~= seq!["repo"@, "feature"@, "type"@, "variant"@]);
    assert(a9.drop_last() =~= a8);
    assert(crate::template::ph_names(a9) =~= seq![
        "repo"@,
        "feature"@,
        "type"@,
        "variant"@,
        "N"@,
    ]);
    assert(a10.drop_last() =~= a9);
    assert(crate::template::ph_names(a10) =~= seq![
        "repo"@,
        "feature"@,
        "type"@,
        "variant"@,
        "N"@,
    ]);
    assert(feat_toks() =~= a10);
}

/// The placeholder names of the procedure grammar, in occurrence
/// order.
proof fn lemma_sop_ph_names()
    ensures
        crate::template::ph_names(sop_toks()) =~= seq!["repo"@, "name"@, "N"@],
{
    let a1: Seq<TokenView> = seq![TokenView::Ph("repo"@)];
    let a2 = a1.push(TokenView::Lit(".sop."@));
    let a3 = a2.push(TokenView::Ph("name"@));
    let a4 = a3.push(TokenView::Lit(".v"@));
    let a5 = a4.push(TokenView::Ph("N"@));
    let a6 = a5.push(TokenView::Lit(".md"@));
    assert(a1.drop_last() =~= Seq::<TokenView>::empty());
    assert(crate::template::ph_names(Seq::<TokenView>::empty()) =~= Seq::<Seq<char>>::empty());
    assert(crate::template::ph_names(a1) =~= seq!["repo"@]);
    assert(a2.drop_last() =~= a1);
    assert(crate::template::ph_names(a2) =~= seq!["repo"@]);
    assert(a3.drop_last() =~= a2);
    assert(crate::template::ph_names(a3) =~= seq!["repo"@, "name"@]);
    assert(a4.drop_last() =~= a3);
    assert(crate::template::ph_names(a4) =~= seq!["repo"@, "name"@]);
    assert(a5.drop_last() =~= a4);
    assert(crate::template::ph_names(a5) =~= seq!["repo"@, "name"@, "N"@]);
    assert(a6.drop_last() =~= a5);
    assert(crate::template::ph_names(a6) =~= seq!["repo"@, "name"@, "N"@]);
    assert(sop_toks() =~= a6);
}

/// The feature grammar is separated: a dot-bearing literal stands
/// between any two of its placeholders, so a name it matches has
/// exactly one decomposition and the round-trip law applies to it.
pub proof fn lemma_feat_separated()
    ensures
        crate::matcher::sep_ok(feat_toks()),
{
    reveal_strlit(".feat.");
    reveal_strlit(".");
    reveal_strlit(".v");
    reveal_strlit(".md");
    let t = feat_toks();
    assert forall|k: int| 0 <= k < t.len() implies ((#[trigger] t[k]) is Ph <==> k % 2 == 0) by {}
    assert forall|k: int|
        0 <= k < t.len() && t[k] is Lit implies (#[trigger] t[k])->Lit_0.len() > 0
        && t[k]->Lit_0[0] == '.' by {}
    proof_sep_ok_dotted(t);
}

/// The procedure grammar is separated as well.
pub proof fn lemma_sop_separated()
    ensures
        crate::matcher::sep_ok(sop_toks()),
{
    reveal_strlit(".sop.");
    reveal_strlit(".v");
    reveal_strlit(".md");
    let t = sop_toks();
    assert forall|k: int| 0 <= k < t.len() implies ((#[trigger] t[k]) is Ph <==> k % 2 == 0) by {}
    assert forall|k: int|
        0 <= k < t.len() && t[k] is Lit implies (#[trigger] t[k])->Lit_0.len() > 0
        && t[k]->Lit_0[0] == '.' by {}
    proof_sep_ok_dotted(t);
}

/// Both canonical grammars alternate placeholders with literals that
/// start with a dot, which no placeholder value may contain.
proof fn proof_sep_ok_dotted(toks: Seq<TokenView>)
    requires
        forall|k: int|
            0 <= k < toks.len() ==> ((#[trigger] toks[k]) is Ph <==> k % 2 == 0),
        forall|k: int|
            0 <= k < toks.len() && toks[k] is Lit ==> (#[trigger] toks[k])->Lit_0.len() > 0
                && toks[k]->Lit_0[0] == '.',
    ensures
        crate::matcher::sep_ok(toks),
    decreases toks.len(),
{
    if toks.len() > 0 {
        let rest = toks.drop_first();
        assert(forall|k: int| 0 <= k < rest.len() ==> rest[k] == toks[k + 1]);
        assert forall|k: int|
            0 <= k < rest.len() implies ((#[trigger] rest[k]) is Ph <==> k % 2 == 1) by {
            assert(rest[k] == toks[k + 1]);
            assert((k + 1) % 2 == if k % 2 == 1 {
                0int
            } else {
                1int
            });
        }
        // shift the parity so the hypothesis matches the suffix again
        match toks[0] {
            TokenView::Lit(_) => {
                assert(toks[0] is Ph <==> 0int % 2 == 0);
                assert(false);
            },
            TokenView::Ph(_) => {
                if rest.len() > 0 {
                    assert(rest[0] is Lit);
                    let e = crate::matcher::lit_prefix_end(rest);
                    crate::matcher::lemma_lit_prefix_end(rest);
                    if e < rest.len() {
                        assert(rest[0] is Lit && crate::matcher::lit_has_sep(rest[0]->Lit_0)) by {
                            assert(!crate::text::is_slug_char('.'));
                            assert(rest[0]->Lit_0[0] == '.');
                        }
                        assert(e > 0);
                        assert(exists|k: int|
                            0 <= k < e && rest[k] is Lit && crate::matcher::lit_has_sep(
                                #[trigger] rest[k]->Lit_0,
                            ));
                    }
                    // the suffix after the leading literal restores the
                    // even-placeholder shape
                    let rest2 = rest.drop_first();
                    assert(forall|k: int| 0 <= k < rest2.len() ==> rest2[k] == toks[k + 2]);
                    assert forall|k: int|
                        0 <= k < rest2.len() implies ((#[trigger] rest2[k]) is Ph <==> k % 2
                        == 0) by {
                        assert(rest2[k] == toks[k + 2]);
                        assert((k + 2) % 2 == k % 2);
                    }
                    proof_sep_ok_dotted(rest2);
                    lemma_sep_ok_lit_head(rest, rest2);
                } else {
                    assert(crate::matcher::sep_ok(rest));
                }
            },
        }
    }
}

/// Separation of a literal-headed sequence follows from its tail.
proof fn lemma_sep_ok_lit_head(rest: Seq<TokenView>, rest2: Seq<TokenView>)
    requires
        rest.len() > 0,
        rest[0] is Lit,
        rest2 == rest.drop_first(),
        crate::matcher::sep_ok(rest2),
    ensures
        crate::matcher::sep_ok(rest),
{
}

/// A name has at most one decomposition against the feature grammar,
/// so the fields a successful parse reports are the only possible
/// ones.
pub proof fn lemma_feat_fields_unique(v1: Seq<Seq<char>>, v2: Seq<Seq<char>>, s: Seq<char>)
    requires
        caps_match(feat_toks(), v1, s),
        caps_match(feat_toks(), v2, s),
    ensures
        v1 == v2,
{
    lemma_feat_separated();
    crate::matcher::lemma_caps_unique(feat_toks(), v1, v2, s);
}

/// A name has at most one decomposition against the procedure grammar.
pub proof fn lemma_sop_fields_unique(v1: Seq<Seq<char>>, v2: Seq<Seq<char>>, s: Seq<char>)
    requires
        caps_match(sop_toks(), v1, s),
        caps_match(sop_toks(), v2, s),
    ensures
        v1 == v2,
{
    lemma_sop_separated();
    crate::matcher::lemma_caps_unique(sop_toks(), v1, v2, s);
}

/// The procedure grammar's token list.
fn sop_tokens() -> (r: Vec<Token>)
    ensures
        tokens_view(r@) == sop_toks(),
{
    let mut v: Vec<Token> = Vec::new();
    v.push(Token::Placeholder(Placeholder::from_name("repo".to_owned())));
    v.push(Token::Literal(".sop.".to_owned()));
    v.push(Token::Placeholder(Placeholder::from_name("name".to_owned())));
    v.push(Token::Literal(".v".to_owned()));
    v.push(Token::Placeholder(Placeholder::from_name("N".to_owned())));
    v.push(Token::Literal(".md".to_owned()));
    proof {
        assert(v@.len() == 6);
        assert(v@[0]@ == TokenView::Ph("repo"@));
        assert(v@[1]@ == TokenView::Lit(".sop."@));
        assert(v@[2]@ == TokenView::Ph("name"@));
        assert(v@[3]@ == TokenView::Lit(".v"@));
        assert(v@[4]@ == TokenView::Ph("N"@));
        assert(v@[5]@ == TokenView::Lit(".md"@));
        assert(tokens_view(v@) =~= sop_toks());
    }
    v
}

impl ParsedFilename {
    /// The repository field, common to both grammars.
    pub fn repo(&self) -> (r: &str)
        ensures
            match self {
                ParsedFilename::Feat(f) => r@ == f.repo@,
                ParsedFilename::Sop(s) => r@ == s.repo@,
            },
    {
        match self {
            ParsedFilename::Feat(f) => f.repo.as_str(),
            ParsedFilename::Sop(s) => s.repo.as_str(),
        }
    }

    /// The grammar the name followed.
    pub fn category(&self) -> (r: &str)
        ensures
            match self {
                ParsedFilename::Feat(_) => r@ == "feat"@,
                ParsedFilename::Sop(_) => r@ == "sop"@,
            },
    {
        match self {
            ParsedFilename::Feat(_) => "feat",
            ParsedFilename::Sop(_) => "sop",
        }
    }

    /// The version field, common to both grammars.
    pub fn version(&self) -> (r: u32)
        ensures
            match self {
                ParsedFilename::Feat(f) => r == f.version,
                ParsedFilename::Sop(s) => r == s.version,
            },
    {
        match self {
            ParsedFilename::Feat(f) => f.version,
            ParsedFilename::Sop(s) => s.version,
        }
    }
}

/// Why a name is exempt from the convention, if it is.
pub fn exempt_reason(name: &str) -> (r: Option<&'static str>)
    ensures
        match r {
            Some(reason) => ((name@ == "README.md"@ || name@ == "prompts.md"@) && reason@
                == "documentation"@) || ((name@ == ".gitignore"@ || name@ == ".DS_Store"@)
                && reason@ == "system"@),
            None => name@ != "README.md"@ && name@ != "prompts.md"@ && name@ != ".gitignore"@
                && name@ != ".DS_Store"@,
        },
{
    if str_eq(name, "README.md") || str_eq(name, "prompts.md") {
        Some("documentation")
    } else if str_eq(name, ".gitignore") || str_eq(name, ".DS_Store") {
        Some("system")
    } else {
        None
    }
}

/// Whether the name follows either canonical grammar.
pub fn is_valid_filename(name: &str) -> (r: bool)
    ensures
        r == (is_feat_name(name@) || is_sop_name(name@)),
{
    let ft = feat_tokens();
    if capture_values(&ft, name).is_some() {
        return true;
    }
    let st = sop_tokens();
    capture_values(&st, name).is_some()
}

/// The text explaining a name that follows neither grammar.
pub open spec fn invalid_name_message() -> Seq<char> {
    "Invalid: does not match pattern\n  feat: "@
        + "{repo}.feat.{feature}.{type}.{variant}.v{N}.md"@ + "\n  sop:  "@
        + "{repo}.sop.{name}.v{N}.md"@
}

/// Parses a filename against the feature grammar first, then the
/// procedure grammar. A name whose version field does not fit 32 bits
/// is rejected even though it fits the grammar.
pub fn parse_filename(name: &str) -> (r: Result<ParsedFilename, String>)
    ensures
        match r {
            Ok(p) => match p {
                ParsedFilename::Feat(f) => exists|num: Seq<char>|
                    caps_match(
                        feat_toks(),
                        seq![f.repo@, f.feature@, f.doc_type@, f.variant@, num],
                        name@,
                    ) && f.version == decimal_value(num),
                ParsedFilename::Sop(s) => !is_feat_name(name@) && exists|num: Seq<char>|
                    caps_match(sop_toks(), seq![s.repo@, s.name@, num], name@) && s.version
                        == decimal_value(num),
            },
            Err(e) => (!is_feat_name(name@) && !is_sop_name(name@) && e@
                == invalid_name_message()) || (is_feat_name(name@) && e@ == "Invalid version"@
                && exists|vals: Seq<Seq<char>>|
                caps_match(feat_toks(), vals, name@) && decimal_value(vals[4]) > u32::MAX) || (
            !is_feat_name(name@) && is_sop_name(name@) && e@ == "Invalid version"@ && exists|
                vals: Seq<Seq<char>>,
            |
                caps_match(sop_toks(), vals, name@) && decimal_value(vals[2]) > u32::MAX),
        },
        // success is owed: a matching name whose numeric field fits is
        // parsed, the feature grammar first
        (is_feat_name(name@) && (forall|vals: Seq<Seq<char>>|
            caps_match(feat_toks(), vals, name@) ==> decimal_value(vals[4]) <= u32::MAX)) ==> r
            is Ok && r->Ok_0 is Feat,
        (!is_feat_name(name@) && is_sop_name(name@) && (forall|vals: Seq<Seq<char>>|
            caps_match(sop_toks(), vals, name@) ==> decimal_value(vals[2]) <= u32::MAX)) ==> r
            is Ok && r->Ok_0 is Sop,
{
    let ft = feat_tokens();
    match capture_values(&ft, name) {
        Some(vals) => {
            proof {
                crate::matcher::lemma_caps_vals_len(
                    feat_toks(),
                    crate::matcher::vals_view(vals@),
                    name@,
                );
                crate::matcher::lemma_caps_value_ok(
                    feat_toks(),
                    crate::matcher::vals_view(vals@),
                    name@,
                );
                lemma_feat_ph_names();
                reveal_strlit("N");
                assert("N"@ =~= seq!['N']);
                assert(crate::matcher::value_ok("N"@, crate::matcher::vals_view(vals@)[4]));
                assert(crate::matcher::num_ok(crate::matcher::vals_view(vals@)[4]));
            }
            let version = match parse_u32_digits(vals[4].as_str()) {
                Some(v) => v,
                None => {
                    proof {
                        let vv = crate::matcher::vals_view(vals@);
                        assert(vv[4] == vals@[4]@);
                        assert(caps_match(feat_toks(), vv, name@) && decimal_value(vv[4])
                            > u32::MAX);
                    }
                    return Err("Invalid version".to_owned());
                },
            };
            let f = FeatFilename {
                repo: vals[0].clone(),
                feature: vals[1].clone(),
                doc_type: vals[2].clone(),
                variant: vals[3].clone(),
                version,
            };
            proof {
                assert(seq![f.repo@, f.feature@, f.doc_type@, f.variant@, vals@[4]@]
                    =~= crate::matcher::vals_view(vals@));
            }
            Ok(ParsedFilename::Feat(f))
        },
        None => {
            let st = sop_tokens();
            match capture_values(&st, name) {
                Some(vals) => {
                    proof {
                        crate::matcher::lemma_caps_vals_len(
                            sop_toks(),
                            crate::matcher::vals_view(vals@),
                            name@,
                        );
                        crate::matcher::lemma_caps_value_ok(
                            sop_toks(),
                            crate::matcher::vals_view(vals@),
                            name@,
                        );
                        lemma_sop_ph_names();
                        reveal_strlit("N");
                        assert("N"@ =~= seq!['N']);
                        assert(crate::matcher::value_ok(
                            "N"@,
                            crate::matcher::vals_view(vals@)[2],
                        ));
                        assert(crate::matcher::num_ok(crate::matcher::vals_view(vals@)[2]));
                    }
                    let version = match parse_u32_digits(vals[2].as_str()) {
                        Some(v) => v,
                        None => {
                            proof {
                                let vv = crate::matcher::vals_view(vals@);
                                assert(vv[2] == vals@[2]@);
                                assert(caps_match(sop_toks(), vv, name@) && decimal_value(vv[2])
                                    > u32::MAX);
                            }
                            return Err("Invalid version".to_owned());
                        },
                    };
                    let s = SopFilename { repo: vals[0].clone(), name: vals[1].clone(), version };
                    proof {
                        assert(seq![s.repo@, s.name@, vals@[2]@] =~= crate::matcher::vals_view(
                            vals@,
                        ));
                    }
                    Ok(ParsedFilename::Sop(s))
                },
                None => {
                    let mut msg = "Invalid: does not match pattern\n  feat: ".to_owned();
                    msg.append("{repo}.feat.{feature}.{type}.{variant}.v{N}.md");
                    msg.append("\n  sop:  ");
                    msg.append("{repo}.sop.{name}.v{N}.md");
                    Err(msg)
                },
            }
        },
    }
}

/// The canonical feature-document pattern.
pub fn canonical_pattern_feat() -> (r: &'static str)
    ensures
        r@ == "{repo}.feat.{feature}.{type}.{variant}.v{N}.md"@,
{
    "{repo}.feat.{feature}.{type}.{variant}.v{N}.md"
}

/// The canonical procedure pattern.
pub fn canonical_pattern_sop() -> (r: &'static str)
    ensures
        r@ == "{repo}.sop.{name}.v{N}.md"@,
{
    "{repo}.sop.{name}.v{N}.md"
}

/// The pattern shown when reporting convention violations.
pub fn canonical_pattern() -> (r: &'static str)
    ensures
        r@ == "{repo}.feat.{feature}.{type}.{variant}.v{N}.md"@,
{
    "{repo}.feat.{feature}.{type}.{variant}.v{N}.md"
}

/// The canonical feature pattern without its mandatory suffix, as
/// offered when prompting for a source pattern.
pub fn canonical_pattern_short() -> (r: &'static str)
    ensures
        r@ == "{repo}.feat.{feature}.{type}.{variant}.v{N}"@,
{
    "{repo}.feat.{feature}.{type}.{variant}.v{N}"
}

} // verus!
