//! The target-address grammar: `//package/path:target`, `//package/path:all`
//! and `//package/path/...`, with exact round-trip and error semantics.
//!
//! This is a pure grammar: no semantic validation of package or target names
//! is performed. A target literally named `all` is indistinguishable from the
//! package-scope marker (`pkg:all` always parses as the whole package); this
//! known ambiguity is kept as-is.

use vstd::prelude::*;
use vstd::string::StrSliceExecFns;
use vstd::string::StringExecFns;

verus! {

/// The mathematical value of a [`PatternScope`].
pub ghost enum ScopeModel {
    SingleTarget(Seq<char>),
    Package,
    Descendants,
}

/// The mathematical value of a [`TargetPattern`].
pub ghost struct PatternModel {
    pub package: Seq<char>,
    pub scope: ScopeModel,
}

/// A scope defining which targets in a package to include.
#[derive(Debug, Clone)]
pub enum PatternScope {
    /// Just the single target of the given name in the package.
    SingleTarget(String),
    /// All targets directly within the package.
    Package,
    /// All targets within the package and all of its descendant packages.
    Descendants,
}

impl View for PatternScope {
    type V = ScopeModel;

    open spec fn view(&self) -> ScopeModel {
        match self {
            PatternScope::SingleTarget(t) => ScopeModel::SingleTarget(t@),
            PatternScope::Package => ScopeModel::Package,
            PatternScope::Descendants => ScopeModel::Descendants,
        }
    }
}

impl PartialEq for PatternScope {
    fn eq(&self, other: &Self) -> bool {
        match (self, other) {
            (PatternScope::SingleTarget(a), PatternScope::SingleTarget(b)) => a.eq(b),
            (PatternScope::Package, PatternScope::Package) => true,
            (PatternScope::Descendants, PatternScope::Descendants) => true,
            _ => false,
        }
    }
}

impl vstd::std_specs::cmp::PartialEqSpecImpl for PatternScope {
    open spec fn obeys_eq_spec() -> bool {
        true
    }

    open spec fn eq_spec(&self, other: &Self) -> bool {
        self@ == other@
    }
}

/// A pattern describing a set of targets: a package path and a scope.
#[derive(Debug, Clone)]
pub struct TargetPattern {
    /// Slash-separated package path (no leading `//`, no embedded `:`).
    pub package: String,
    /// Which targets of the package are meant.
    pub scope: PatternScope,
}

impl View for TargetPattern {
    type V = PatternModel;

    open spec fn view(&self) -> PatternModel {
        PatternModel { package: self.package@, scope: self.scope@ }
    }
}

impl PartialEq for TargetPattern {
    fn eq(&self, other: &Self) -> bool {
        self.package.eq(&other.package) && self.scope == other.scope
    }
}

impl vstd::std_specs::cmp::PartialEqSpecImpl for TargetPattern {
    open spec fn obeys_eq_spec() -> bool {
        true
    }

    open spec fn eq_spec(&self, other: &Self) -> bool {
        self@ == other@
    }
}

/// Which grammar rule an input broke.
#[derive(Debug, Clone, Copy, PartialEq, Eq, Structural)]
pub enum ParseErrorKind {
    /// The input does not start with `//`.
    MissingPrefix,
    /// The input has no `:` part and does not end with `/...`.
    MissingTargetOrDescendants,
    /// The input contains two or more `:`.
    TooManyColons,
}

/// An error from parsing an incorrectly formatted [`TargetPattern`]; carries
/// the offending input text.
#[derive(Debug, Clone, PartialEq, Eq)]
pub struct ParseError {
    /// Which grammar rule the input broke.
    pub kind: ParseErrorKind,
    /// The offending input text.
    pub pattern: String,
}

impl ParseError {
    /// The human-readable message for this error.
    pub open spec fn message_view(&self) -> Seq<char> {
        "Failed to parse `"@ + self.pattern@ + match self.kind {
            ParseErrorKind::MissingPrefix => "`, target patterns must start with `//`."@,
            ParseErrorKind::MissingTargetOrDescendants =>
                "`, target patterns must end with `:target` or `/...`."@,
            ParseErrorKind::TooManyColons => "`, target patterns may contain at most one `:`."@,
        }
    }

    /// Builds the human-readable message for this error.
    pub fn message(&self) -> (r: String)
        ensures
            r@ == self.message_view(),
    {
        let mut s = "Failed to parse `".to_owned();
        s.append(self.pattern.as_str());
        match self.kind {
            ParseErrorKind::MissingPrefix => {
                s.append("`, target patterns must start with `//`.");
            },
            ParseErrorKind::MissingTargetOrDescendants => {
                s.append("`, target patterns must end with `:target` or `/...`.");
            },
            ParseErrorKind::TooManyColons => {
                s.append("`, target patterns may contain at most one `:`.");
            },
        }
        s
    }
}

/// No `:` anywhere in `s`.
pub open spec fn colon_free(s: Seq<char>) -> bool {
    forall|i: int| 0 <= i < s.len() ==> s[i] != ':'
}

/// `k` is the position of the only `:` in `rest`.
pub open spec fn splits_at_colon(rest: Seq<char>, k: int) -> bool {
    &&& 0 <= k < rest.len()
    &&& rest[k] == ':'
    &&& colon_free(rest.take(k))
    &&& colon_free(rest.skip(k + 1))
}

/// `rest` contains exactly one `:`.
pub open spec fn has_single_colon(rest: Seq<char>) -> bool {
    exists|k: int| splits_at_colon(rest, k)
}

/// The position of the only `:` (meaningful under `has_single_colon`).
pub open spec fn colon_split_at(rest: Seq<char>) -> int {
    choose|k: int| splits_at_colon(rest, k)
}

/// The `/...` descendants marker.
pub open spec fn desc_suffix() -> Seq<char> {
    seq!['/', '.', '.', '.']
}

/// The `all` package-scope marker.
pub open spec fn all_marker() -> Seq<char> {
    seq!['a', 'l', 'l']
}

/// `rest` ends with the `/...` marker.
pub open spec fn ends_with_descendants(rest: Seq<char>) -> bool {
    rest.len() >= 4 && rest.skip(rest.len() - 4) == desc_suffix()
}

/// What parsing a pattern text yields, as a mathematical function of the
/// text: the grammar of §`//package:target | //package:all | //package/...`.
pub open spec fn parse_spec(s: Seq<char>) -> Result<PatternModel, ParseErrorKind> {
    if !(s.len() >= 2 && s[0] == '/' && s[1] == '/') {
        Err(ParseErrorKind::MissingPrefix)
    } else {
        let rest = s.skip(2);
        if colon_free(rest) {
            if ends_with_descendants(rest) {
                Ok(
                    PatternModel {
                        package: rest.take(rest.len() - 4),
                        scope: ScopeModel::Descendants,
                    },
                )
            } else {
                Err(ParseErrorKind::MissingTargetOrDescendants)
            }
        } else if has_single_colon(rest) {
            let k = colon_split_at(rest);
            let target = rest.skip(k + 1);
            Ok(
                PatternModel {
                    package: rest.take(k),
                    scope: if target == all_marker() {
                        ScopeModel::Package
                    } else {
                        ScopeModel::SingleTarget(target)
                    },
                },
            )
        } else {
            Err(ParseErrorKind::TooManyColons)
        }
    }
}

/// The canonical surface text of a pattern value.
pub open spec fn format_spec(m: PatternModel) -> Seq<char> {
    seq!['/', '/'] + m.package + match m.scope {
        ScopeModel::SingleTarget(t) => seq![':'] + t,
        ScopeModel::Package => seq![':'] + all_marker(),
        ScopeModel::Descendants => desc_suffix(),
    }
}

/// A single-colon split position is unique.
pub proof fn lemma_colon_split_unique(rest: Seq<char>, k1: int, k2: int)
    requires
        splits_at_colon(rest, k1),
        splits_at_colon(rest, k2),
    ensures
        k1 == k2,
{
    if k1 < k2 {
        assert(rest.skip(k1 + 1)[k2 - (k1 + 1)] == rest[k2]);
    }
    if k2 < k1 {
        assert(rest.skip(k2 + 1)[k1 - (k2 + 1)] == rest[k1]);
    }
}

/// A pattern value whose parts do not collide with the grammar's own
/// markers: no `:` inside the package or target name, and no target
/// literally named `all` (such a target is unaddressable, since `pkg:all`
/// always means the whole package).
pub open spec fn constructible(m: PatternModel) -> bool {
    colon_free(m.package) && match m.scope {
        ScopeModel::SingleTarget(t) => colon_free(t) && t != all_marker(),
        ScopeModel::Package => true,
        ScopeModel::Descendants => true,
    }
}

/// Round trip: for every constructible pattern value, parsing its formatted
/// text yields the value back.
pub proof fn lemma_parse_format_round_trip(m: PatternModel)
    requires
        constructible(m),
    ensures
        parse_spec(format_spec(m)) == Ok::<PatternModel, ParseErrorKind>(m),
{
    let s = format_spec(m);
    let rest = s.skip(2);
    assert(s[0] == '/' && s[1] == '/');
    match m.scope {
        ScopeModel::Descendants => {
            assert(rest =~= m.package + desc_suffix());
            assert(colon_free(rest)) by {
                assert(forall|i: int| 0 <= i < m.package.len() ==> rest[i] == m.package[i]);
            }
            assert(rest.skip(rest.len() - 4) =~= desc_suffix());
            assert(ends_with_descendants(rest));
            assert(rest.take(rest.len() - 4) =~= m.package);
        },
        ScopeModel::Package => {
            assert(rest =~= m.package + seq![':'] + all_marker());
            let k = m.package.len() as int;
            assert(splits_at_colon(rest, k)) by {
                assert(rest[k] == ':');
                assert(rest.take(k) =~= m.package);
                assert(rest.skip(k + 1) =~= all_marker());
            }
            assert(!colon_free(rest));
            assert(has_single_colon(rest));
            let kk = colon_split_at(rest);
            assert(splits_at_colon(rest, kk));
            lemma_colon_split_unique(rest, kk, k);
            assert(rest.skip(k + 1) =~= all_marker());
            assert(rest.take(k) =~= m.package);
        },
        ScopeModel::SingleTarget(t) => {
            assert(rest =~= m.package + seq![':'] + t);
            let k = m.package.len() as int;
            assert(splits_at_colon(rest, k)) by {
                assert(rest[k] == ':');
                assert(rest.take(k) =~= m.package);
                assert(rest.skip(k + 1) =~= t);
            }
            assert(!colon_free(rest));
            assert(has_single_colon(rest));
            let kk = colon_split_at(rest);
            assert(splits_at_colon(rest, kk));
            lemma_colon_split_unique(rest, kk, k);
            assert(rest.skip(k + 1) =~= t);
            assert(rest.take(k) =~= m.package);
        },
    }
}

impl TargetPattern {
    /// Parses a `//path/to/pkg:target` / `//path/to/pkg:all` /
    /// `//path/to/pkg/...` string into a `TargetPattern`, or reports which
    /// grammar rule the input broke.
    #[verifier::loop_isolation(false)]
    pub fn parse(pattern: &str) -> (r: Result<TargetPattern, ParseError>)
        ensures
            match r {
                Ok(t) => parse_spec(pattern@) == Ok::<PatternModel, ParseErrorKind>(t@),
                Err(e) => parse_spec(pattern@) == Err::<PatternModel, ParseErrorKind>(e.kind)
                    && e.pattern@ == pattern@,
            },
    {
        let n = pattern.unicode_len();
        if n < 2 || pattern.get_char(0) != '/' || pattern.get_char(1) != '/' {
            return Err(
                ParseError { kind: ParseErrorKind::MissingPrefix, pattern: pattern.to_owned() },
            );
        }
        let ghost pv = pattern@;
        let ghost rest = pv.skip(2);
        let mut count: usize = 0;
        let mut first: usize = 0;
        let mut second: usize = 0;
        let mut i: usize = 2;
        while i < n
            invariant
                2 <= i <= n,
                count <= i,
                count == 0 ==> colon_free(pv.subrange(2, i as int)),
                count >= 1 ==> 2 <= first < i && pv[first as int] == ':' && colon_free(
                    pv.subrange(2, first as int),
                ),
                count == 1 ==> colon_free(pv.subrange(first + 1, i as int)),
                count >= 2 ==> first < second < i && pv[second as int] == ':',
            decreases n - i,
        {
            let c = pattern.get_char(i);
            if c == ':' {
                if count == 0 {
                    first = i;
                    proof {
                        assert(pv.subrange(first + 1, i + 1) =~= Seq::<char>::empty());
                    }
                } else if count == 1 {
                    second = i;
                }
                count = count + 1;
            } else {
                proof {
                    if count == 0 {
                        assert(pv.subrange(2, i + 1) =~= pv.subrange(2, i as int).push(
                            pv[i as int],
                        ));
                    }
                    if count == 1 {
                        assert(pv.subrange(first + 1, i + 1) =~= pv.subrange(
                            first + 1,
                            i as int,
                        ).push(pv[i as int]));
                    }
                }
            }
            i = i + 1;
        }
        if count == 0 {
            proof {
                assert(rest =~= pv.subrange(2, n as int));
                assert(colon_free(rest));
            }
            if n >= 6 && pattern.get_char(n - 4) == '/' && pattern.get_char(n - 3) == '.'
                && pattern.get_char(n - 2) == '.' && pattern.get_char(n - 1) == '.' {
                let package = pattern.substring_char(2, n - 4).to_owned();
                proof {
                    assert(rest.len() >= 4);
                    assert(rest.skip(rest.len() - 4) =~= desc_suffix());
                    assert(ends_with_descendants(rest));
                    assert(package@ =~= rest.take(rest.len() - 4));
                }
                Ok(TargetPattern { package, scope: PatternScope::Descendants })
            } else {
                proof {
                    assert(!ends_with_descendants(rest)) by {
                        if ends_with_descendants(rest) {
                            assert(rest.len() >= 4);
                            assert(n >= 6);
                            let tail = rest.skip(rest.len() - 4);
                            assert(tail[0] == pv[n - 4] && tail[1] == pv[n - 3] && tail[2] == pv[n
                                - 2] && tail[3] == pv[n - 1]);
                        }
                    }
                }
                Err(
                    ParseError {
                        kind: ParseErrorKind::MissingTargetOrDescendants,
                        pattern: pattern.to_owned(),
                    },
                )
            }
        } else if count == 1 {
            let package = pattern.substring_char(2, first).to_owned();
            let target_str = pattern.substring_char(first + 1, n);
            let target = target_str.to_owned();
            proof {
                assert(splits_at_colon(rest, first - 2)) by {
                    assert(rest[first - 2] == pv[first as int]);
                    assert(rest.take(first - 2) =~= pv.subrange(2, first as int));
                    assert(rest.skip(first - 2 + 1) =~= pv.subrange(first + 1, n as int));
                }
                assert(has_single_colon(rest));
                let kk = colon_split_at(rest);
                assert(splits_at_colon(rest, kk));
                lemma_colon_split_unique(rest, kk, first - 2);
                assert(package@ =~= rest.take(first - 2));
                assert(target@ =~= rest.skip(first - 2 + 1));
            }
            let tlen = target_str.unicode_len();
            if tlen == 3 && target_str.get_char(0) == 'a' && target_str.get_char(1) == 'l'
                && target_str.get_char(2) == 'l' {
                proof {
                    assert(target@ =~= all_marker());
                }
                Ok(TargetPattern { package, scope: PatternScope::Package })
            } else {
                proof {
                    assert(target@ != all_marker()) by {
                        if target@ == all_marker() {
                            assert(target@.len() == 3);
                            assert(target@[0] == 'a' && target@[1] == 'l' && target@[2] == 'l');
                        }
                    }
                }
                Ok(TargetPattern { package, scope: PatternScope::SingleTarget(target) })
            }
        } else {
            proof {
                assert(rest[first - 2] == ':' && rest[second - 2] == ':');
                assert(!has_single_colon(rest)) by {
                    if has_single_colon(rest) {
                        let kk = choose|kk: int| splits_at_colon(rest, kk);
                        assert(splits_at_colon(rest, kk));
                        if first - 2 < kk {
                            assert(rest.take(kk)[first - 2] == rest[first - 2]);
                        }
                        if first - 2 > kk {
                            assert(rest.skip(kk + 1)[first - 2 - (kk + 1)] == rest[first - 2]);
                        }
                        assert(kk == first - 2);
                        if second - 2 > kk {
                            assert(rest.skip(kk + 1)[second - 2 - (kk + 1)] == rest[second - 2]);
                        }
                    }
                }
                assert(!colon_free(rest));
            }
            Err(
                ParseError { kind: ParseErrorKind::TooManyColons, pattern: pattern.to_owned() },
            )
        }
    }

    /// Formats the canonical surface form: the exact syntactic inverse of
    /// `parse` (`:all` for `Package`, `/...` for `Descendants`).
    pub fn format(&self) -> (r: String)
        ensures
            r@ == format_spec(self@),
    {
        let mut out = "//".to_owned();
        proof {
            reveal_strlit("//");
            assert("//"@ =~= seq!['/', '/']);
        }
        out.append(self.package.as_str());
        match &self.scope {
            PatternScope::SingleTarget(t) => {
                out.append(":");
                out.append(t.as_str());
                proof {
                    reveal_strlit(":");
                    assert(":"@ =~= seq![':']);
                    assert(out@ =~= format_spec(self@));
                }
            },
            PatternScope::Package => {
                out.append(":all");
                proof {
                    reveal_strlit(":all");
                    assert(":all"@ =~= seq![':', 'a', 'l', 'l']);
                    assert(seq![':'] + all_marker() =~= seq![':', 'a', 'l', 'l']);
                    assert(out@ =~= format_spec(self@));
                }
            },
            PatternScope::Descendants => {
                out.append("/...");
                proof {
                    reveal_strlit("/...");
                    assert("/..."@ =~= seq!['/', '.', '.', '.']);
                    assert(out@ =~= format_spec(self@));
                }
            },
        }
        out
    }
}

/// The parse results of the inputs that parse, in input order.
pub open spec fn ok_models(inputs: Seq<Seq<char>>) -> Seq<PatternModel>
    decreases inputs.len(),
{
    if inputs.len() == 0 {
        Seq::<PatternModel>::empty()
    } else {
        let front = ok_models(inputs.drop_last());
        match parse_spec(inputs.last()) {
            Ok(m) => front.push(m),
            Err(_) => front,
        }
    }
}

/// The parse failures of the inputs that do not parse, in input order.
pub open spec fn err_models(inputs: Seq<Seq<char>>) -> Seq<(ParseErrorKind, Seq<char>)>
    decreases inputs.len(),
{
    if inputs.len() == 0 {
        Seq::<(ParseErrorKind, Seq<char>)>::empty()
    } else {
        let front = err_models(inputs.drop_last());
        match parse_spec(inputs.last()) {
            Ok(_) => front,
            Err(k) => front.push((k, inputs.last())),
        }
    }
}

/// The views of a sequence of input strings.
pub open spec fn text_views(v: Seq<String>) -> Seq<Seq<char>> {
    v.map_values(|s: String| s@)
}

/// Parses every input, collecting all successes and all failures, so that a
/// caller reports every failing pattern rather than stopping at the first.
#[verifier::loop_isolation(false)]
pub fn parse_all(inputs: &Vec<String>) -> (r: (Vec<TargetPattern>, Vec<ParseError>))
    ensures
        r.0@.map_values(|t: TargetPattern| t@) == ok_models(text_views(inputs@)),
        r.1@.map_values(|e: ParseError| (e.kind, e.pattern@)) == err_models(text_views(inputs@)),
{
    let ghost iv = text_views(inputs@);
    let mut oks: Vec<TargetPattern> = Vec::new();
    let mut errs: Vec<ParseError> = Vec::new();
    proof {
        assert(iv.subrange(0, 0) =~= Seq::<Seq<char>>::empty());
        assert(oks@.map_values(|t: TargetPattern| t@) =~= ok_models(iv.subrange(0, 0)));
        assert(errs@.map_values(|e: ParseError| (e.kind, e.pattern@)) =~= err_models(
            iv.subrange(0, 0),
        ));
    }
    let mut i: usize = 0;
    while i < inputs.len()
        invariant
            i <= inputs.len(),
            iv.len() == inputs@.len(),
            oks@.map_values(|t: TargetPattern| t@) == ok_models(iv.subrange(0, i as int)),
            errs@.map_values(|e: ParseError| (e.kind, e.pattern@)) == err_models(
                iv.subrange(0, i as int),
            ),
        decreases inputs.len() - i,
    {
        proof {
            assert(iv.subrange(0, i + 1).drop_last() =~= iv.subrange(0, i as int));
            assert(iv.subrange(0, i + 1).last() == iv[i as int]);
            assert(iv[i as int] == inputs@[i as int]@);
        }
        match TargetPattern::parse(inputs[i].as_str()) {
            Ok(t) => {
                let ghost pre = oks@;
                oks.push(t);
                proof {
                    assert(oks@.map_values(|t: TargetPattern| t@) =~= pre.map_values(
                        |t: TargetPattern| t@,
                    ).push(t@));
                }
            },
            Err(e) => {
                let ghost pre = errs@;
                errs.push(e);
                proof {
                    assert(errs@.map_values(|e: ParseError| (e.kind, e.pattern@)) =~= pre
                        .map_values(|e: ParseError| (e.kind, e.pattern@)).push((e.kind, e.pattern@)));
                }
            },
        }
        i = i + 1;
    }
    proof {
        assert(iv.subrange(0, iv.len() as int) =~= iv);
    }
    (oks, errs)
}

} // verus!
