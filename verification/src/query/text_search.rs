//! Text search operators: `$regex` with MongoDB-style options, and the
//! algorithms of `$fuzzy`.
use vstd::prelude::*;
use crate::error::IronBaseError;
use crate::query::operators::{OperatorMatcher, invalid_query, opt_view};
use crate::query::filter::{member, member_exec, opt_ref};
use crate::query::value::{JsonValue, JsonView, lemma_values_view, values_view};
use crate::text::{concat2, concat3, lowercase, str_eq, to_lower};
use vstd::std_specs::iter::IteratorSpec;

verus! {

broadcast use {vstd::string::axiom_spec_iter, vstd::string::next_postcondition};

#[verifier::external_type_specification]
#[verifier::external_body]
pub struct ExRegex(regex::Regex);

/// What `Regex::new` of the regex crate says of a pattern: `None` when it
/// compiles, else the text of its error.
pub uninterp spec fn regex_compile_error(pattern: Seq<char>) -> Option<Seq<char>>;

/// What `Regex::is_match` of the regex crate says: the compiled pattern
/// matches somewhere in the text.
pub uninterp spec fn regex_is_match(pattern: Seq<char>, text: Seq<char>) -> bool;

/// A compiled regular expression with the pattern it was compiled from.
pub struct CompiledRegex {
    pattern: String,
    re: regex::Regex,
}

/// `Regex::new` of the regex crate: the compiled pattern, or its error's text.
#[verifier::external_body]
fn compile_regex(pattern: &str) -> (r: Result<CompiledRegex, String>)
    ensures
        match r {
            Ok(c) => regex_compile_error(pattern@) is None && c.pattern@ == pattern@,
            Err(e) => regex_compile_error(pattern@) == Some(e@),
        },
{
    match regex::Regex::new(pattern) {
        Ok(re) => Ok(CompiledRegex { pattern: pattern.to_string(), re }),
        Err(e) => Err(e.to_string()),
    }
}

/// `Regex::is_match` of the regex crate.
#[verifier::external_body]
fn regex_matches(c: &CompiledRegex, text: &str) -> (b: bool)
    ensures
        b == regex_is_match(c.pattern@, text@),
{
    c.re.is_match(text)
}

/// Regex options accepted: case-insensitive, multi-line, dot-all, extended.
pub open spec fn valid_option(c: char) -> bool {
    c == 'i' || c == 'm' || c == 's' || c == 'x'
}

/// Position of the first option from `k` on that is not accepted.
pub open spec fn first_bad_from(options: Seq<char>, k: int) -> Option<int>
    decreases options.len() - k,
{
    if k < 0 || k >= options.len() {
        None
    } else if !valid_option(options[k]) {
        Some(k)
    } else {
        first_bad_from(options, k + 1)
    }
}

/// Position of the first option that is not accepted.
pub open spec fn first_bad_option(options: Seq<char>) -> Option<int> {
    first_bad_from(options, 0)
}

proof fn lemma_first_bad_from(options: Seq<char>, k: int)
    requires
        0 <= k <= options.len(),
    ensures
        first_bad_from(options, k) is None <==> forall|j: int| k <= j < options.len() ==> valid_option(#[trigger] options[j]),
        first_bad_from(options, k) matches Some(b) ==> k <= b < options.len() && !valid_option(options[b]) && forall|j: int|
            k <= j < b ==> valid_option(#[trigger] options[j]),
    decreases options.len() - k,
{
    if k < options.len() {
        lemma_first_bad_from(options, k + 1);
    }
}

/// Options `i`, `m`, `s` and `x` are all accepted and no other is: an
/// options string is refused exactly when it holds another character, and
/// the one named in the refusal is the first such character.
pub proof fn lemma_accepted_options(options: Seq<char>)
    ensures
        first_bad_option(options) is None <==> forall|j: int| 0 <= j < options.len() ==> {
            let c = #[trigger] options[j];
            c == 'i' || c == 'm' || c == 's' || c == 'x'
        },
        first_bad_option(options) matches Some(b) ==> {
            &&& 0 <= b < options.len()
            &&& !(options[b] == 'i' || options[b] == 'm' || options[b] == 's' || options[b] == 'x')
            &&& forall|j: int| 0 <= j < b ==> {
                let c = #[trigger] options[j];
                c == 'i' || c == 'm' || c == 's' || c == 'x'
            }
        },
{
    lemma_first_bad_from(options, 0);
}

/// A pattern whose options are all among `i`, `m`, `s` and `x` is never
/// refused for its options: it matches, does not match, or fails to compile.
pub proof fn lemma_valid_options_not_refused(text: Seq<char>, pattern: Seq<char>, options: Seq<char>)
    requires
        forall|j: int| 0 <= j < options.len() ==> {
            let c = #[trigger] options[j];
            c == 'i' || c == 'm' || c == 's' || c == 'x'
        },
    ensures
        regex_outcome(text, pattern, options) == match regex_compile_error(flagged_pattern(pattern, options)) {
            Some(e) => Err::<bool, Seq<char>>("Invalid regex pattern '"@ + pattern + "': "@ + e),
            None => Ok(regex_is_match(flagged_pattern(pattern, options), text)),
        },
{
    lemma_accepted_options(options);
}

/// The pattern with the options as inline flags in front.
pub open spec fn flagged_pattern(pattern: Seq<char>, options: Seq<char>) -> Seq<char> {
    if options.len() == 0 {
        pattern
    } else {
        "(?"@ + options + ")"@ + pattern
    }
}

/// Outcome of matching `text` against `pattern` with `options`: the first
/// refused option, else a pattern that does not compile, else the match.
pub open spec fn regex_outcome(text: Seq<char>, pattern: Seq<char>, options: Seq<char>) -> Result<bool, Seq<char>> {
    match first_bad_option(options) {
        Some(i) => Err("Invalid regex option '"@ + seq![options[i]] + "'"@),
        None => match regex_compile_error(flagged_pattern(pattern, options)) {
            Some(e) => Err("Invalid regex pattern '"@ + pattern + "': "@ + e),
            None => Ok(regex_is_match(flagged_pattern(pattern, options), text)),
        },
    }
}

pub open spec fn outcome_is(res: Result<bool, IronBaseError>, o: Result<bool, Seq<char>>) -> bool {
    match o {
        Ok(b) => res == Ok::<bool, IronBaseError>(b),
        Err(m) => invalid_query(res, m),
    }
}

/// The pattern with MongoDB-style options (`i`, `m`, `s`, `x`) as inline
/// flags; any other option is refused.
pub fn build_regex_pattern(pattern: &str, options: &str) -> (res: Result<String, IronBaseError>)
    ensures
        match first_bad_option(options@) {
            Some(i) => res is Err && res->Err_0 is InvalidQuery && res->Err_0->InvalidQuery_0@ == "Invalid regex option '"@
                + seq![options@[i]] + "'"@,
            None => res is Ok && res->Ok_0@ == flagged_pattern(pattern@, options@),
        },
{
    let n = options.unicode_len();
    match find_bad_option(options) {
        Some(k) => {
            assert(k < n);
            let bad = options.substring_char(k, k + 1);
            assert(bad@ =~= seq![options@[k as int]]);
            Err(IronBaseError::InvalidQuery(concat3("Invalid regex option '", bad, "'")))
        },
        None => {
            if options.unicode_len() == 0 {
                Ok(pattern.to_string())
            } else {
                let mut s = concat3("(?", options, ")");
                s.append(pattern);
                Ok(s)
            }
        },
    }
}

/// Position of the first option that is not accepted.
fn find_bad_option(options: &str) -> (r: Option<usize>)
    ensures
        match r {
            Some(k) => first_bad_option(options@) == Some(k as int) && k < options@.len(),
            None => first_bad_option(options@) is None,
        },
{
    let ghost o = options@;
    let n = options.unicode_len();
    let mut it = options.chars();
    let mut k: usize = 0;
    proof {
        assert(o.skip(0) =~= o);
    }
    loop
        invariant
            o == options@,
            n == o.len(),
            0 <= k <= n,
            it.remaining() == o.skip(k as int),
            it.obeys_prophetic_iter_laws(),
            first_bad_from(o, 0) == first_bad_from(o, k as int),
        decreases n - k,
    {
        let ghost rem = it.remaining();
        let c = it.next();
        match c {
            None => {
                assert(rem.len() == 0);
                return None;
            },
            Some(ch) => {
                assert(rem.len() > 0 && ch == rem[0] && rem[0] == o[k as int]);
                if !(ch == 'i' || ch == 'm' || ch == 's' || ch == 'x') {
                    return Some(k);
                }
                proof {
                    assert(o.skip(k as int).drop_first() =~= o.skip(k + 1));
                }
                k = k + 1;
            },
        }
    }
}

/// Match `text` against `pattern` with MongoDB-style options.
pub fn regex_match_with_options(text: &str, pattern: &str, options: &str) -> (res: Result<bool, IronBaseError>)
    ensures
        outcome_is(res, regex_outcome(text@, pattern@, options@)),
{
    let full = match build_regex_pattern(pattern, options) {
        Ok(p) => p,
        Err(e) => {
            return Err(e);
        },
    };
    match compile_regex(full.as_str()) {
        Err(e) => {
            let mut m = concat3("Invalid regex pattern '", pattern, "': ");
            m.append(e.as_str());
            Err(IronBaseError::InvalidQuery(m))
        },
        Ok(c) => Ok(regex_matches(&c, text)),
    }
}

/// Outcome of `$regex` on the strings among `items` (in order): the first
/// match, or the first error, or no match.
pub open spec fn regex_on_items(items: Seq<JsonView>, pattern: Seq<char>) -> Result<bool, Seq<char>>
    decreases items.len(),
{
    if items.len() == 0 {
        Ok(false)
    } else {
        match items[0] {
            JsonView::Str(s) => match regex_outcome(s, pattern, Seq::empty()) {
                Ok(true) => Ok(true),
                Ok(false) => regex_on_items(items.drop_first(), pattern),
                Err(m) => Err(m),
            },
            _ => regex_on_items(items.drop_first(), pattern),
        }
    }
}

/// `$regex`: the value is a string matching the pattern argument, or an
/// array holding such a string.
pub struct RegexOperator;

impl OperatorMatcher for RegexOperator {
    fn name(&self) -> (s: &'static str)
        ensures
            s@ == "$regex"@,
    {
        "$regex"
    }

    fn matches(&self, doc_value: Option<&JsonValue>, filter_value: &JsonValue) -> (res: Result<bool, IronBaseError>)
        ensures
            match opt_view(doc_value) {
                Some(JsonView::Str(s)) => match filter_value@ {
                    JsonView::Str(p) => outcome_is(res, regex_outcome(s, p, Seq::empty())),
                    _ => invalid_query(res, "$regex operator requires a string pattern"@),
                },
                Some(JsonView::Arr(items)) => match filter_value@ {
                    JsonView::Str(p) => outcome_is(res, regex_on_items(items, p)),
                    _ => invalid_query(res, "$regex operator requires a string pattern"@),
                },
                _ => res == Ok::<bool, IronBaseError>(false),
            },
    {
        match doc_value {
            Some(JsonValue::String(s)) => match filter_value {
                JsonValue::String(p) => {
                    proof {
                        reveal_strlit("");
                    }
                    regex_match_with_options(s.as_str(), p.as_str(), "")
                },
                _ => Err(IronBaseError::InvalidQuery("$regex operator requires a string pattern".to_string())),
            },
            Some(JsonValue::Array(items)) => match filter_value {
                JsonValue::String(p) => {
                    proof {
                        lemma_values_view(items@);
                        reveal_strlit("");
                    }
                    let ghost vs = values_view(items@);
                    let mut i: usize = 0;
                    proof {
                        assert(vs.skip(0) =~= vs);
                    }
                    while i < items.len()
                        invariant
                            vs == values_view(items@),
                            vs.len() == items@.len(),
                            forall|j: int| 0 <= j < items@.len() ==> #[trigger] vs[j] == items@[j].view_json(),
                            i <= items@.len(),
                            regex_on_items(vs, p@) == regex_on_items(vs.skip(i as int), p@),
                            ""@ == Seq::<char>::empty(),
                            opt_view(doc_value) == Some(JsonView::Arr(vs)),
                            filter_value@ == JsonView::Str(p@),
                        decreases items@.len() - i,
                    {
                        proof {
                            assert(vs.skip(i as int)[0] == vs[i as int]);
                            assert(vs.skip(i as int).drop_first() =~= vs.skip(i + 1));
                        }
                        match &items[i] {
                            JsonValue::String(s) => {
                                match regex_match_with_options(s.as_str(), p.as_str(), "") {
                                    Err(e) => {
                                        return Err(e);
                                    },
                                    Ok(true) => {
                                        return Ok(true);
                                    },
                                    Ok(false) => {},
                                }
                            },
                            _ => {},
                        }
                        i = i + 1;
                    }
                    proof {
                        assert(vs.skip(i as int) =~= Seq::<JsonView>::empty());
                    }
                    Ok(false)
                },
                _ => Err(IronBaseError::InvalidQuery("$regex operator requires a string pattern".to_string())),
            },
            _ => Ok(false),
        }
    }
}

/// `$fuzzy`: approximate string matching. Similarity scores are floats: the
/// filter module hands the operator to the `FloatOperators` evaluator it is given.
pub struct FuzzyOperator;

/// The string a member named `key` holds, if it holds one.
pub open spec fn member_str(ms: Seq<(String, JsonValue)>, key: Seq<char>) -> Option<Seq<char>> {
    match member(ms, key) {
        Some(JsonValue::String(s)) => Some(s@),
        _ => None,
    }
}

/// Message of an algorithm name `$fuzzy` does not know.
pub open spec fn unknown_algorithm_message(n: Seq<char>) -> Seq<char> {
    "Unknown fuzzy algorithm: '"@ + n + "'. Supported: jaro_winkler, levenshtein, damerau_levenshtein"@
}

/// What a `$fuzzy` argument searches for: a string alone (Jaro-Winkler),
/// or an object with the string under `value` and an optional algorithm
/// name under `algorithm`. (A `threshold` member is read by the evaluator.)
pub open spec fn fuzzy_query(f: JsonValue) -> Result<(Seq<char>, FuzzyAlgorithm), Seq<char>> {
    match f {
        JsonValue::String(s) => Ok((s@, FuzzyAlgorithm::JaroWinkler)),
        JsonValue::Object(ms) => match member_str(ms@, "value"@) {
            None => Err("$fuzzy object form requires 'value' field with string"@),
            Some(t) => match member_str(ms@, "algorithm"@) {
                None => Ok((t, FuzzyAlgorithm::JaroWinkler)),
                Some(n) => match operator_algorithm_named(lowercase(n)) {
                    Some(a) => Ok((t, a)),
                    None => Err(unknown_algorithm_message(n)),
                },
            },
        },
        _ => Err("$fuzzy operator requires a string or object with 'value' field"@),
    }
}

/// The strings `$fuzzy` compares with its term: the document value when it
/// is a string, the strings among its items when it is an array.
pub open spec fn fuzzy_candidates(dv: Option<JsonView>) -> Seq<Seq<char>> {
    match dv {
        Some(JsonView::Str(s)) => seq![s],
        Some(JsonView::Arr(vs)) => vs.filter(|v: JsonView| v is Str).map_values(|v: JsonView| v->Str_0),
        _ => Seq::empty(),
    }
}

fn member_string<'a>(ms: &'a Vec<(String, JsonValue)>, key: &str) -> (r: Option<&'a String>)
    ensures
        match r {
            Some(s) => member_str(ms@, key@) == Some(s@),
            None => member_str(ms@, key@) is None,
        },
{
    match member_exec(ms, key) {
        Some(JsonValue::String(s)) => Some(s),
        _ => None,
    }
}

impl FuzzyOperator {
    pub fn name(&self) -> (s: &'static str)
        ensures
            s@ == "$fuzzy"@,
    {
        "$fuzzy"
    }

    /// The term and algorithm of a `$fuzzy` argument (see [`fuzzy_query`]);
    /// a malformed argument or an unknown algorithm is an `InvalidQuery`.
    pub fn query(filter_value: &JsonValue) -> (res: Result<(String, FuzzyAlgorithm), IronBaseError>)
        ensures
            match fuzzy_query(*filter_value) {
                Ok((t, a)) => res is Ok && res->Ok_0.0@ == t && res->Ok_0.1 == a,
                Err(m) => res is Err && res->Err_0 is InvalidQuery && res->Err_0->InvalidQuery_0@ == m,
            },
    {
        match filter_value {
            JsonValue::String(s) => Ok((s.clone(), FuzzyAlgorithm::JaroWinkler)),
            JsonValue::Object(ms) => match member_string(ms, "value") {
                None => Err(IronBaseError::InvalidQuery("$fuzzy object form requires 'value' field with string".to_string())),
                Some(t) => match member_string(ms, "algorithm") {
                    None => Ok((t.clone(), FuzzyAlgorithm::JaroWinkler)),
                    Some(n) => match FuzzyAlgorithm::from_str(n.as_str()) {
                        Ok(a) => Ok((t.clone(), a)),
                        Err(e) => Err(e),
                    },
                },
            },
            _ => Err(IronBaseError::InvalidQuery("$fuzzy operator requires a string or object with 'value' field".to_string())),
        }
    }

    /// The strings `$fuzzy` compares with its term, in order (see [`fuzzy_candidates`]).
    pub fn candidates(doc_value: Option<&JsonValue>) -> (r: Vec<String>)
        ensures
            r@.map_values(|s: String| s@) == fuzzy_candidates(opt_view(doc_value)),
    {
        let mut out: Vec<String> = Vec::new();
        match doc_value {
            Some(JsonValue::String(s)) => {
                out.push(s.clone());
                proof {
                    assert(out@.map_values(|s: String| s@) =~= fuzzy_candidates(opt_view(doc_value)));
                }
            },
            Some(JsonValue::Array(items)) => {
                let ghost vs = values_view(items@);
                let ghost keep = |v: JsonView| v is Str;
                let ghost text = |v: JsonView| v->Str_0;
                let mut i: usize = 0;
                proof {
                    lemma_values_view(items@);
                    assert(vs.take(0) =~= Seq::<JsonView>::empty());
                    assert(vs.take(0).filter(keep) =~= Seq::<JsonView>::empty());
                    assert(out@.map_values(|s: String| s@) =~= vs.take(0).filter(keep).map_values(text));
                }
                while i < items.len()
                    invariant
                        i <= items@.len(),
                        vs == values_view(items@),
                        vs.len() == items@.len(),
                        keep == (|v: JsonView| v is Str),
                        text == (|v: JsonView| v->Str_0),
                        out@.map_values(|s: String| s@) == vs.take(i as int).filter(keep).map_values(text),
                    decreases items@.len() - i,
                {
                    proof {
                        lemma_values_view(items@);
                        vs.take(i as int).lemma_filter_push(vs[i as int], keep);
                        assert(vs.take(i + 1) =~= vs.take(i as int).push(vs[i as int]));
                    }
                    match &items[i] {
                        JsonValue::String(s) => {
                            let ghost before = out@;
                            out.push(s.clone());
                            proof {
                                assert(vs[i as int] == JsonView::Str(s@));
                                assert(out@.map_values(|s: String| s@) =~= before.map_values(|s: String| s@).push(s@));
                                assert(vs.take(i + 1).filter(keep) =~= vs.take(i as int).filter(keep).push(vs[i as int]));
                                assert(out@.map_values(|s: String| s@) =~= vs.take(i + 1).filter(keep).map_values(text));
                            }
                        },
                        _ => {
                            proof {
                                assert(vs.take(i + 1).filter(keep) =~= vs.take(i as int).filter(keep));
                            }
                        },
                    }
                    i = i + 1;
                }
                proof {
                    assert(vs.take(items@.len() as int) =~= vs);
                }
            },
            _ => {
                proof {
                    assert(out@.map_values(|s: String| s@) =~= Seq::<Seq<char>>::empty());
                }
            },
        }
        out
    }
}

/// String similarity algorithm of `$fuzzy`.
#[derive(Debug, Clone, Copy, PartialEq, Eq, Structural)]
pub enum FuzzyAlgorithm {
    /// Jaro-Winkler similarity: fast, good for names and short strings.
    JaroWinkler,
    /// Normalized Levenshtein distance.
    Levenshtein,
    /// Damerau-Levenshtein: edits plus transpositions.
    DamerauLevenshtein,
}

/// The algorithm a lower-cased name stands for.
pub open spec fn operator_algorithm_named(l: Seq<char>) -> Option<FuzzyAlgorithm> {
    if l == "jaro_winkler"@ || l == "jarowinkler"@ || l == "jaro-winkler"@ {
        Some(FuzzyAlgorithm::JaroWinkler)
    } else if l == "levenshtein"@ {
        Some(FuzzyAlgorithm::Levenshtein)
    } else if l == "damerau_levenshtein"@ || l == "damerau-levenshtein"@ || l == "dameraulevenshtein"@ {
        Some(FuzzyAlgorithm::DamerauLevenshtein)
    } else {
        None
    }
}

impl FuzzyAlgorithm {
    /// Algorithm of a name, case-insensitively; an unknown name is an `InvalidQuery`.
    pub fn from_str(s: &str) -> (res: Result<FuzzyAlgorithm, IronBaseError>)
        ensures
            match operator_algorithm_named(lowercase(s@)) {
                Some(a) => res == Ok::<FuzzyAlgorithm, IronBaseError>(a),
                None => res is Err && res->Err_0 is InvalidQuery && res->Err_0->InvalidQuery_0@ == "Unknown fuzzy algorithm: '"@
                    + s@ + "'. Supported: jaro_winkler, levenshtein, damerau_levenshtein"@,
            },
    {
        let l = to_lower(s);
        match Self::from_lower(l.as_str()) {
            Some(a) => Ok(a),
            None => Err(
                IronBaseError::InvalidQuery(
                    concat3("Unknown fuzzy algorithm: '", s, "'. Supported: jaro_winkler, levenshtein, damerau_levenshtein"),
                ),
            ),
        }
    }

    /// Algorithm of a lower-cased name.
    pub fn from_lower(l: &str) -> (r: Option<FuzzyAlgorithm>)
        ensures
            r == operator_algorithm_named(l@),
    {
        if str_eq(l, "jaro_winkler") || str_eq(l, "jarowinkler") || str_eq(l, "jaro-winkler") {
            Some(FuzzyAlgorithm::JaroWinkler)
        } else if str_eq(l, "levenshtein") {
            Some(FuzzyAlgorithm::Levenshtein)
        } else if str_eq(l, "damerau_levenshtein") || str_eq(l, "damerau-levenshtein") || str_eq(l, "dameraulevenshtein") {
            Some(FuzzyAlgorithm::DamerauLevenshtein)
        } else {
            None
        }
    }
}

} // verus!
