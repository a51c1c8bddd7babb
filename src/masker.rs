use vstd::prelude::*;
use vstd::string::StrSliceExecFns;
use vstd::string::StringExecFns;

use crate::category::{category_of, Category};
use crate::error::MaskerError;
use crate::pool::generate_fake_words_pool;
use crate::similarity::{
    pool_view, sample_similar_word_for_category, similar_words, strings_view, FakeWordPool,
};
use crate::text::{
    apply_edits, edits_view, edits_well_formed, lemma_spliced_keeps, normalize_length, normalized,
    occurs_in, quote, quoted, spliced, str_eq, strip_quotes, without_quotes, Edit,
};

verus! {

/// A category declared for a field of a struct.
#[derive(Debug)]
pub struct Annotation {
    pub struct_name: String,
    pub field: String,
    pub faker: String,
    pub format: Option<String>,
}

impl Annotation {
    pub fn new(struct_name: String, field: String, faker: String, format: Option<String>) -> (r:
        Self)
        ensures
            r.struct_name == struct_name,
            r.field == field,
            r.faker == faker,
            r.format == format,
    {
        Annotation { struct_name, field, faker, format }
    }
}

/// A literal assigned to a struct field in test code, with the span of the
/// literal (quotes included) in characters of the source.
#[derive(Debug)]
pub struct Expectation {
    pub struct_name: String,
    pub field: String,
    pub value: String,
    pub start: usize,
    pub end: usize,
}

impl Expectation {
    pub fn new(struct_name: String, field: String, value: String, start: usize, end: usize) -> (r:
        Self)
        ensures
            r.struct_name == struct_name,
            r.field == field,
            r.value == value,
            r.start == start,
            r.end == end,
    {
        Expectation { struct_name, field, value, start, end }
    }
}

/// A node bound to a pattern variable: its text and its span in characters.
#[derive(Debug)]
pub struct MaskerNode {
    pub text: String,
    pub start: usize,
    pub end: usize,
}

/// The variable bindings of one structural match.
#[derive(Debug)]
pub struct MaskerMatch {
    pub env: Vec<(String, MaskerNode)>,
}

/// Index of the first binding, from `i` on, of the variable `name`.
pub open spec fn binding_from(env: Seq<(String, MaskerNode)>, name: Seq<char>, i: nat) -> Option<
    int,
>
    decreases env.len() - i,
{
    if i >= env.len() {
        None
    } else if env[i as int].0@ == name {
        Some(i as int)
    } else {
        binding_from(env, name, i + 1)
    }
}

/// The node bound to `name` in `m`, if any.
pub open spec fn bound(m: MaskerMatch, name: Seq<char>) -> Option<MaskerNode> {
    match binding_from(m.env@, name, 0) {
        Some(i) => Some(m.env@[i].1),
        None => None,
    }
}

impl MaskerMatch {
    /// Index of the first binding of `name`.
    pub fn binding(&self, name: &str) -> (r: Option<usize>)
        ensures
            match r {
                None => binding_from(self.env@, name@, 0) is None,
                Some(i) => binding_from(self.env@, name@, 0) == Some(i as int) && i
                    < self.env.len(),
            },
    {
        let mut i: usize = 0;
        while i < self.env.len()
            invariant
                i <= self.env.len(),
                binding_from(self.env@, name@, 0) == binding_from(self.env@, name@, i as nat),
            decreases self.env.len() - i,
        {
            if str_eq(self.env[i].0.as_str(), name) {
                return Some(i);
            }
            i = i + 1;
        }
        None
    }
}

/// The annotation a match yields: struct, field and category token, when all
/// three are bound.
pub open spec fn annotation_of(m: MaskerMatch) -> Option<(Seq<char>, Seq<char>, Seq<char>)> {
    match (bound(m, "STRUCT"@), bound(m, "FIELD"@), bound(m, "FAKER"@)) {
        (Some(s), Some(f), Some(k)) => Some((s.text@, f.text@, without_quotes(k.text@))),
        _ => None,
    }
}

/// The annotations the matches yield, in order.
pub open spec fn collect_annotations(ms: Seq<MaskerMatch>) -> Seq<(Seq<char>, Seq<char>, Seq<char>)>
    decreases ms.len(),
{
    if ms.len() == 0 {
        Seq::empty()
    } else {
        let p = collect_annotations(ms.drop_last());
        match annotation_of(ms.last()) {
            Some(a) => p.push(a),
            None => p,
        }
    }
}

/// Annotations as struct, field and category token.
pub open spec fn annotations_view(v: Seq<Annotation>) -> Seq<(Seq<char>, Seq<char>, Seq<char>)> {
    v.map_values(|a: Annotation| (a.struct_name@, a.field@, a.faker@))
}

/// The expectation a match yields: struct, field, unquoted literal and the
/// literal's span, when all three are bound.
pub open spec fn expectation_of(m: MaskerMatch) -> Option<
    (Seq<char>, Seq<char>, Seq<char>, int, int),
> {
    match (bound(m, "STRUCT"@), bound(m, "FIELD"@), bound(m, "VALUE"@)) {
        (Some(s), Some(f), Some(v)) => Some(
            (s.text@, f.text@, without_quotes(v.text@), v.start as int, v.end as int),
        ),
        _ => None,
    }
}

/// The expectations the matches yield, in order.
pub open spec fn collect_expectations(ms: Seq<MaskerMatch>) -> Seq<
    (Seq<char>, Seq<char>, Seq<char>, int, int),
>
    decreases ms.len(),
{
    if ms.len() == 0 {
        Seq::empty()
    } else {
        let p = collect_expectations(ms.drop_last());
        match expectation_of(ms.last()) {
            Some(e) => p.push(e),
            None => p,
        }
    }
}

/// Expectations as struct, field, literal and span.
pub open spec fn expectations_view(v: Seq<Expectation>) -> Seq<
    (Seq<char>, Seq<char>, Seq<char>, int, int),
> {
    v.map_values(|e: Expectation| (e.struct_name@, e.field@, e.value@, e.start as int, e.end as int))
}

/// Annotations from the matches of the struct-annotation rule; a match that
/// lacks a binding is passed over.
pub fn annotations_from_matches(matches: &Vec<MaskerMatch>) -> (r: Vec<Annotation>)
    ensures
        annotations_view(r@) == collect_annotations(matches@),
{
    let mut r: Vec<Annotation> = Vec::new();
    let mut k: usize = 0;
    while k < matches.len()
        invariant
            k <= matches.len(),
            annotations_view(r@) == collect_annotations(matches@.take(k as int)),
        decreases matches.len() - k,
    {
        let m = &matches[k];
        proof {
            assert(matches@.take(k + 1).drop_last() =~= matches@.take(k as int));
            assert(matches@.take(k + 1).last() == *m);
        }
        let s = m.binding("STRUCT");
        let f = m.binding("FIELD");
        let c = m.binding("FAKER");
        match (s, f, c) {
            (Some(si), Some(fi), Some(ci)) => {
                let a = Annotation::new(
                    m.env[si].1.text.clone(),
                    m.env[fi].1.text.clone(),
                    strip_quotes(m.env[ci].1.text.as_str()),
                    None,
                );
                r.push(a);
                proof {
                    assert(annotations_view(r@) =~= collect_annotations(matches@.take(k + 1)));
                }
            },
            _ => {},
        }
        k = k + 1;
    }
    proof {
        assert(matches@.take(k as int) =~= matches@);
    }
    r
}

/// Expectations from the matches of the expectation rule; a match that lacks
/// a binding is passed over.
pub fn expectations_from_matches(matches: &Vec<MaskerMatch>) -> (r: Vec<Expectation>)
    ensures
        expectations_view(r@) == collect_expectations(matches@),
{
    let mut r: Vec<Expectation> = Vec::new();
    let mut k: usize = 0;
    while k < matches.len()
        invariant
            k <= matches.len(),
            expectations_view(r@) == collect_expectations(matches@.take(k as int)),
        decreases matches.len() - k,
    {
        let m = &matches[k];
        proof {
            assert(matches@.take(k + 1).drop_last() =~= matches@.take(k as int));
            assert(matches@.take(k + 1).last() == *m);
        }
        let s = m.binding("STRUCT");
        let f = m.binding("FIELD");
        let v = m.binding("VALUE");
        match (s, f, v) {
            (Some(si), Some(fi), Some(vi)) => {
                let e = Expectation::new(
                    m.env[si].1.text.clone(),
                    m.env[fi].1.text.clone(),
                    strip_quotes(m.env[vi].1.text.as_str()),
                    m.env[vi].1.start,
                    m.env[vi].1.end,
                );
                r.push(e);
                proof {
                    assert(expectations_view(r@) =~= collect_expectations(matches@.take(k + 1)));
                }
            },
            _ => {},
        }
        k = k + 1;
    }
    proof {
        assert(matches@.take(k as int) =~= matches@);
    }
    r
}

/// Index of the first annotation, from `i` on, for the given struct and field.
pub open spec fn annotation_for(
    anns: Seq<Annotation>,
    struct_name: Seq<char>,
    field: Seq<char>,
    i: nat,
) -> Option<int>
    decreases anns.len() - i,
{
    if i >= anns.len() {
        None
    } else if anns[i as int].struct_name@ == struct_name && anns[i as int].field@ == field {
        Some(i as int)
    } else {
        annotation_for(anns, struct_name, field, i + 1)
    }
}

/// The category token of the first annotation for the struct and field.
pub fn lookup_faker_for_field(struct_name: &str, field: &str, anns: &Vec<Annotation>) -> (r:
    Option<String>)
    ensures
        match annotation_for(anns@, struct_name@, field@, 0) {
            None => r is None,
            Some(i) => r matches Some(t) && t@ == anns@[i].faker@,
        },
{
    let mut i: usize = 0;
    while i < anns.len()
        invariant
            i <= anns.len(),
            annotation_for(anns@, struct_name@, field@, 0) == annotation_for(
                anns@,
                struct_name@,
                field@,
                i as nat,
            ),
        decreases anns.len() - i,
    {
        if str_eq(anns[i].struct_name.as_str(), struct_name) && str_eq(
            anns[i].field.as_str(),
            field,
        ) {
            return Some(anns[i].faker.clone());
        }
        i = i + 1;
    }
    None
}

/// The masked value for `value` of category `c`: the most similar sample
/// brought to the length of `value`; `None` when there is none.
pub open spec fn synthesized(value: Seq<char>, c: Category, pv: Seq<(Category, Seq<Seq<char>>)>) -> Option<
    Seq<char>,
> {
    match similar_words(value, pv, c, 1) {
        Some(ws) => if ws.len() > 0 {
            Some(normalized(ws[0], value.len()))
        } else {
            None
        },
        None => None,
    }
}

/// A masked value for `value`: the sample of `category` most similar to it,
/// padded or cut to its length. An error when no sample can be had.
pub fn synthesize_replacement(value: &str, category: Category, pool: &FakeWordPool) -> (r: Result<
    String,
    MaskerError,
>)
    ensures
        match synthesized(value@, category, pool_view(pool@)) {
            Some(m) => r matches Ok(s) && s@ == m,
            None => r matches Err(e) && e is SimilarityError,
        },
{
    let words = sample_similar_word_for_category(value, category, pool, 1);
    match words {
        Ok(ws) => {
            if ws.len() == 0 {
                Err(MaskerError::SimilarityError(String::from_str("no similar sample")))
            } else {
                proof {
                    assert(strings_view(ws@)[0] == ws@[0]@);
                }
                Ok(normalize_length(ws[0].as_str(), value.unicode_len()))
            }
        },
        Err(e) => Err(e),
    }
}

/// Whether `pattern` compiles as a regular expression.
pub uninterp spec fn regex_compiles(pattern: Seq<char>) -> bool;

/// `text` with every match of `pattern` replaced by `replacement`.
pub uninterp spec fn regex_replaced(
    pattern: Seq<char>,
    text: Seq<char>,
    replacement: Seq<char>,
) -> Seq<char>;

/// Relies on regex::Regex::new, which fails exactly on patterns that do not
/// compile, and on regex::Regex::replace_all, which replaces every
/// non-overlapping match, expanding `$` group references in the replacement.
/// Both depend on their arguments alone; the compiled pattern is handed
/// straight from one to the other.
#[verifier::external_body]
fn replace_all_matches(pattern: &str, text: &str, replacement: &str) -> (r: Option<String>)
    ensures
        r is Some <==> regex_compiles(pattern@),
        r matches Some(s) ==> s@ == regex_replaced(pattern@, text@, replacement@),
{
    match regex::Regex::new(pattern) {
        Ok(re) => Some(re.replace_all(text, replacement).into_owned()),
        Err(_) => None,
    }
}

/// The fixture after substituting `masked` for every match of `original`,
/// used as a pattern; unchanged when the pattern does not compile.
pub open spec fn fixture_substituted(fixture: Seq<char>, original: Seq<char>, masked: Seq<char>) -> Seq<
    char,
> {
    if regex_compiles(original) {
        regex_replaced(original, fixture, masked)
    } else {
        fixture
    }
}

/// Substitutes `masked_value` for every match of `original_value`, read as a
/// regular expression, in the fixture.
pub fn apply_to_fixture(fixture_text: &str, original_value: &str, masked_value: &str) -> (r: String)
    ensures
        r@ == fixture_substituted(fixture_text@, original_value@, masked_value@),
{
    match replace_all_matches(original_value, fixture_text, masked_value) {
        Some(s) => s,
        None => fixture_text.to_owned(),
    }
}

/// Progress of a masking run: the source edits so far and the fixture so far.
pub type MaskState = (Seq<(int, int, Seq<char>)>, Seq<char>);

/// The literal spans lie within a source of `len` characters, in ascending
/// order, none overlapping a later one.
pub open spec fn spans_in_order(len: int, exps: Seq<Expectation>) -> bool {
    &&& forall|k: int|
        0 <= k < exps.len() ==> #[trigger] exps[k].start <= exps[k].end && exps[k].end <= len
    &&& forall|k: int, l: int|
        0 <= k < l < exps.len() ==> #[trigger] exps[k].end <= #[trigger] exps[l].start
}

/// Whether the expectations' spans lie within `source`, in ascending order,
/// without overlap.
pub fn check_spans(source: &str, expectations: &Vec<Expectation>) -> (r: bool)
    ensures
        r == spans_in_order(source@.len() as int, expectations@),
{
    let n = source.unicode_len();
    let mut k: usize = 0;
    while k < expectations.len()
        invariant
            k <= expectations.len(),
            n == source@.len(),
            spans_in_order(n as int, expectations@.take(k as int)),
        decreases expectations.len() - k,
    {
        let e = &expectations[k];
        if !(e.start <= e.end && e.end <= n) {
            proof {
                assert(!(expectations@[k as int].start <= expectations@[k as int].end
                    && expectations@[k as int].end <= n));
            }
            return false;
        }
        if k > 0 && expectations[k - 1].end > e.start {
            proof {
                assert(!(expectations@[k - 1].end <= expectations@[k as int].start));
            }
            return false;
        }
        proof {
            let ex = expectations@;
            assert forall|t: int, l: int|
                0 <= t < l < k + 1 implies #[trigger] ex.take(k + 1)[t].end
                <= #[trigger] ex.take(k + 1)[l].start by {
                assert(ex.take(k as int)[t] == ex[t]);
                if l < k {
                    assert(ex.take(k as int)[l] == ex[l]);
                } else if t < k - 1 {
                    assert(ex.take(k as int)[t].end <= ex.take(k as int)[k - 1].start);
                }
            }
            assert forall|t: int| 0 <= t < k + 1 implies #[trigger] ex.take(k + 1)[t].start
                <= ex.take(k + 1)[t].end && ex.take(k + 1)[t].end <= n by {
                if t < k {
                    assert(ex.take(k as int)[t] == ex[t]);
                }
            }
        }
        k = k + 1;
    }
    proof {
        assert(expectations@.take(k as int) =~= expectations@);
    }
    true
}

/// One expectation's share of a masking run; `None` when its category token
/// is unknown or no masked value can be had. Without an annotation nothing
/// changes; otherwise the literal's span is replaced by the quoted masked
/// value and the fixture is rewritten.
pub open spec fn mask_step(
    st: MaskState,
    anns: Seq<Annotation>,
    e: Expectation,
    pv: Seq<(Category, Seq<Seq<char>>)>,
) -> Option<MaskState> {
    match annotation_for(anns, e.struct_name@, e.field@, 0) {
        None => Some(st),
        Some(ai) => match category_of(anns[ai].faker@) {
            None => None,
            Some(c) => match synthesized(e.value@, c, pv) {
                None => None,
                Some(m) => Some(
                    (
                        st.0.push((e.start as int, e.end - e.start, quoted(m))),
                        fixture_substituted(st.1, e.value@, m),
                    ),
                ),
            },
        },
    }
}

/// A masking run over the expectations in order.
pub open spec fn mask_run(
    fixture: Seq<char>,
    anns: Seq<Annotation>,
    exps: Seq<Expectation>,
    pv: Seq<(Category, Seq<Seq<char>>)>,
) -> Option<MaskState>
    decreases exps.len(),
{
    if exps.len() == 0 {
        Some((Seq::empty(), fixture))
    } else {
        match mask_run(fixture, anns, exps.drop_last(), pv) {
            None => None,
            Some(st) => mask_step(st, anns, exps.last(), pv),
        }
    }
}

/// The masked source and fixture, or `None` for an error.
pub open spec fn mask_outcome(
    source: Seq<char>,
    fixture: Seq<char>,
    anns: Seq<Annotation>,
    exps: Seq<Expectation>,
    pv: Seq<(Category, Seq<Seq<char>>)>,
) -> Option<(Seq<char>, Seq<char>)> {
    match mask_run(fixture, anns, exps, pv) {
        None => None,
        Some(st) => Some((spliced(source, st.0, 0), st.1)),
    }
}

/// Whether `r` is the outcome `o` (`None` standing for an error).
pub open spec fn outcome_is(
    r: Result<(String, String), MaskerError>,
    o: Option<(Seq<char>, Seq<char>)>,
) -> bool {
    match o {
        None => r matches Err(e) && e is SimilarityError,
        Some(p) => r matches Ok(q) && q.0@ == p.0 && q.1@ == p.1,
    }
}

proof fn lemma_mask_run_fails_on(
    fixture: Seq<char>,
    anns: Seq<Annotation>,
    exps: Seq<Expectation>,
    pv: Seq<(Category, Seq<Seq<char>>)>,
    k: int,
)
    requires
        0 <= k <= exps.len(),
        mask_run(fixture, anns, exps.take(k), pv) is None,
    ensures
        mask_run(fixture, anns, exps, pv) is None,
    decreases exps.len() - k,
{
    if k < exps.len() {
        assert(exps.take(k + 1).drop_last() =~= exps.take(k));
        lemma_mask_run_fails_on(fixture, anns, exps, pv, k + 1);
    } else {
        assert(exps.take(k) =~= exps);
    }
}

/// Masks the literals of the expectations in the source and the fixture,
/// drawing replacements from `pool`. Every source edit is positioned against
/// the original source.
pub fn mask_with_pool(
    source: &str,
    fixture: &str,
    annotations: &Vec<Annotation>,
    expectations: &Vec<Expectation>,
    pool: &FakeWordPool,
) -> (r: Result<(String, String), MaskerError>)
    requires
        spans_in_order(source@.len() as int, expectations@),
    ensures
        outcome_is(r, mask_outcome(source@, fixture@, annotations@, expectations@, pool_view(pool@))),
{
    let ghost pv = pool_view(pool@);
    let ghost src_len = source@.len() as int;
    let n = source.unicode_len();
    let mut edits: Vec<Edit> = Vec::new();
    let mut new_fixture = fixture.to_owned();
    let mut cursor: usize = 0;
    let mut k: usize = 0;
    proof {
        assert(expectations@.take(0) =~= Seq::<Expectation>::empty());
        assert(edits_view(edits@) =~= Seq::<(int, int, Seq<char>)>::empty());
    }
    while k < expectations.len()
        invariant
            k <= expectations.len(),
            n == src_len,
            src_len == source@.len(),
            pv == pool_view(pool@),
            cursor <= n,
            spans_in_order(src_len, expectations@),
            mask_run(fixture@, annotations@, expectations@.take(k as int), pv) == Some(
                (edits_view(edits@), new_fixture@),
            ),
            forall|j: int| k <= j < expectations.len() ==> cursor <= #[trigger] expectations@[j].start,
            edits_well_formed(src_len, edits_view(edits@)),
            edits.len() > 0 ==> edits_view(edits@).last().0 + edits_view(edits@).last().1
                <= cursor,
        decreases expectations.len() - k,
    {
        let e = &expectations[k];
        let ghost prefix = expectations@.take(k as int);
        proof {
            assert(expectations@.take(k + 1).drop_last() =~= prefix);
            assert(expectations@.take(k + 1).last() == *e);
        }
        match lookup_faker_for_field(e.struct_name.as_str(), e.field.as_str(), annotations) {
            None => {},
            Some(token) => {
                let c = match Category::from_str(token.as_str()) {
                    Ok(c) => c,
                    Err(err) => {
                        proof {
                            lemma_mask_run_fails_on(
                                fixture@,
                                annotations@,
                                expectations@,
                                pv,
                                k + 1,
                            );
                        }
                        return Err(err);
                    },
                };
                let masked = match synthesize_replacement(e.value.as_str(), c, pool) {
                    Ok(m) => m,
                    Err(err) => {
                        proof {
                            lemma_mask_run_fails_on(
                                fixture@,
                                annotations@,
                                expectations@,
                                pv,
                                k + 1,
                            );
                        }
                        return Err(err);
                    },
                };
                let ghost ev_old = edits_view(edits@);
                let ins = quote(masked.as_str());
                proof {
                    assert(expectations@[k as int].start <= expectations@[k as int].end);
                }
                edits.push(
                    Edit { position: e.start, deleted_length: e.end - e.start, inserted_text: ins },
                );
                proof {
                    assert(edits_view(edits@) =~= ev_old.push(
                        (e.start as int, e.end - e.start, quoted(masked@)),
                    ));
                    assert forall|j: int| k < j < expectations.len() implies e.end
                        <= #[trigger] expectations@[j].start by {
                        assert(expectations@[k as int].end <= expectations@[j].start);
                    }
                }
                cursor = e.end;
                new_fixture = apply_to_fixture(new_fixture.as_str(), e.value.as_str(), masked.as_str());
            },
        }
        k = k + 1;
    }
    proof {
        assert(expectations@.take(k as int) =~= expectations@);
    }
    let new_source = apply_edits(source, &edits);
    Ok((new_source, new_fixture))
}

/// Masks the literals of the expectations in the source and the fixture,
/// drawing replacements from a fresh pool of `category_pool_size` samples per
/// category.
pub fn mask_tests(
    source: &str,
    fixture: &str,
    annotations: &Vec<Annotation>,
    expectations: &Vec<Expectation>,
    category_pool_size: usize,
) -> (r: Result<(String, String), MaskerError>)
    requires
        spans_in_order(source@.len() as int, expectations@),
    ensures
        exists|p: Seq<(Category, Vec<String>)>|
            {
                &&& p.len() == crate::category::CONCRETE_COUNT
                &&& forall|i: int|
                    0 <= i < crate::category::CONCRETE_COUNT ==> (#[trigger] p[i]).0
                        == crate::category::concrete_at(i) && p[i].1.len() == category_pool_size
                &&& outcome_is(r, mask_outcome(source@, fixture@, annotations@, expectations@, pool_view(p)))
            },
{
    let pool = generate_fake_words_pool(category_pool_size);
    let r = mask_with_pool(source, fixture, annotations, expectations, &pool);
    proof {
        let p = pool@;
        assert(outcome_is(r, mask_outcome(source@, fixture@, annotations@, expectations@, pool_view(p))));
    }
    r
}

/// A masked value has exactly the length of the literal it replaces.
pub proof fn lemma_synthesized_length(value: Seq<char>, c: Category, pv: Seq<(Category, Seq<Seq<char>>)>)
    ensures
        synthesized(value, c, pv) matches Some(m) ==> m.len() == value.len(),
{
}

/// A masked value differs from the literal it replaces, and, being of the
/// same length, does not contain it, provided the literal is not empty, does
/// not end in a space and no sample of the pool extends it.
pub proof fn lemma_synthesized_differs(value: Seq<char>, c: Category, pv: Seq<(Category, Seq<Seq<char>>)>)
    requires
        value.len() > 0,
        value.last() != ' ',
        forall|i: int, j: int|
            0 <= i < pv.len() && 0 <= j < pv[i].1.len() ==> !(pv[i].1[j].len() > value.len()
                && #[trigger] pv[i].1[j].take(value.len() as int) == value),
    ensures
        synthesized(value, c, pv) matches Some(m) ==> m != value && m.len() == value.len(),
{
    crate::similarity::lemma_similar_words_exclude_word(value, pv, c, 1);
    if let Some(m) = synthesized(value, c, pv) {
        let ws = similar_words(value, pv, c, 1)->0;
        let w = ws[0];
        assert(w != value && crate::similarity::in_pool(pv, w));
        let (i, j) = choose|i: int, j: int|
            0 <= i < pv.len() && 0 <= j < pv[i].1.len() && pv[i].1[j] == w;
        if w.len() > value.len() {
            assert(!(pv[i].1[j].len() > value.len() && pv[i].1[j].take(value.len() as int) == value));
        } else if w.len() == value.len() {
            assert(m =~= w);
        } else {
            assert(m[m.len() - 1] == ' ');
        }
    }
}

/// An expectation that no annotation covers changes neither the source edits
/// nor the fixture.
pub proof fn lemma_unannotated_untouched(
    st: MaskState,
    anns: Seq<Annotation>,
    e: Expectation,
    pv: Seq<(Category, Seq<Seq<char>>)>,
)
    requires
        annotation_for(anns, e.struct_name@, e.field@, 0) is None,
    ensures
        mask_step(st, anns, e, pv) == Some(st),
{
}

/// Some annotation covers the expectation's struct and field.
pub open spec fn annotated(anns: Seq<Annotation>, x: Expectation) -> bool {
    annotation_for(anns, x.struct_name@, x.field@, 0) is Some
}

/// The edit replaces exactly the literal of `x`, with a text two characters
/// longer than its value: the masked value of the same length, in quotes.
pub open spec fn edit_masks(e: (int, int, Seq<char>), x: Expectation) -> bool {
    &&& e.0 == x.start
    &&& e.1 == x.end - x.start
    &&& e.2.len() == x.value@.len() + 2
}

/// The edit masks the literal of some annotated expectation.
pub open spec fn masks_some(anns: Seq<Annotation>, exps: Seq<Expectation>, e: (int, int, Seq<char>)) -> bool {
    exists|j: int| 0 <= j < exps.len() && annotated(anns, exps[j]) && #[trigger] edit_masks(e, exps[j])
}

/// The source edits of a successful run are in order and without overlap,
/// none reaches past the last literal, and each one masks the literal of an
/// annotated expectation, keeping the value's length.
pub proof fn lemma_mask_run_edits(
    fixture: Seq<char>,
    anns: Seq<Annotation>,
    exps: Seq<Expectation>,
    pv: Seq<(Category, Seq<Seq<char>>)>,
    len: int,
)
    requires
        spans_in_order(len, exps),
        mask_run(fixture, anns, exps, pv) is Some,
    ensures
        ({
            let edits = (mask_run(fixture, anns, exps, pv)->0).0;
            &&& edits_well_formed(len, edits)
            &&& exps.len() > 0 ==> forall|t: int|
                0 <= t < edits.len() ==> #[trigger] edits[t].0 + edits[t].1 <= exps.last().end
            &&& forall|t: int|
                0 <= t < edits.len() ==> masks_some(anns, exps, #[trigger] edits[t])
        }),
    decreases exps.len(),
{
    if exps.len() > 0 {
        let init = exps.drop_last();
        let x = exps.last();
        let n = exps.len() - 1;
        assert(spans_in_order(len, init)) by {
            assert forall|k: int, l: int| 0 <= k < l < init.len() implies #[trigger] init[k].end
                <= #[trigger] init[l].start by {
                assert(init[k] == exps[k] && init[l] == exps[l]);
            }
            assert forall|k: int| 0 <= k < init.len() implies #[trigger] init[k].start
                <= init[k].end && init[k].end <= len by {
                assert(init[k] == exps[k]);
            }
        }
        lemma_mask_run_edits(fixture, anns, init, pv, len);
        let prev = mask_run(fixture, anns, init, pv)->0;
        let st = mask_run(fixture, anns, exps, pv)->0;
        assert(x == exps[n]);
        assert(x.start <= x.end && x.end <= len);
        if init.len() > 0 {
            assert(init.last() == exps[n - 1]);
            assert(exps[n - 1].start <= exps[n - 1].end);
            assert(exps[n - 1].end <= exps[n].start);
        }
        assert forall|t: int| 0 <= t < prev.0.len() implies masks_some(anns, exps, #[trigger] prev.0[t]) by {
            assert(masks_some(anns, init, prev.0[t]));
            let j = choose|j: int|
                0 <= j < init.len() && annotated(anns, init[j]) && #[trigger] edit_masks(
                    prev.0[t],
                    init[j],
                );
            assert(init[j] == exps[j]);
            assert(edit_masks(prev.0[t], exps[j]));
        }
        if annotated(anns, x) {
            let m = synthesized(x.value@, category_of(anns[annotation_for(anns, x.struct_name@, x.field@, 0)->0].faker@)->0, pv)->0;
            assert(st.0 == prev.0.push((x.start as int, x.end - x.start, quoted(m))));
            assert(edit_masks(st.0[st.0.len() - 1], exps[n]));
            assert forall|t: int| 0 <= t < st.0.len() implies masks_some(anns, exps, #[trigger] st.0[t]) by {
                if t < prev.0.len() {
                    assert(st.0[t] == prev.0[t]);
                } else {
                    assert(edit_masks(st.0[t], exps[n]));
                }
            }
            assert forall|t: int| 0 <= t < st.0.len() - 1 implies #[trigger] st.0[t].0 + st.0[t].1
                <= st.0[t + 1].0 by {
                assert(st.0[t] == prev.0[t]);
                if t + 1 < prev.0.len() {
                    assert(st.0[t + 1] == prev.0[t + 1]);
                }
            }
            assert forall|t: int| 0 <= t < st.0.len() implies 0 <= #[trigger] st.0[t].0 && 0
                <= st.0[t].1 && st.0[t].0 + st.0[t].1 <= len by {
                if t < prev.0.len() {
                    assert(st.0[t] == prev.0[t]);
                }
            }
        }
    }
}

/// A literal that no annotation covers reappears unchanged in the masked
/// source.
pub proof fn lemma_unannotated_literal_kept(
    source: Seq<char>,
    fixture: Seq<char>,
    anns: Seq<Annotation>,
    exps: Seq<Expectation>,
    pv: Seq<(Category, Seq<Seq<char>>)>,
    k: int,
)
    requires
        spans_in_order(source.len() as int, exps),
        0 <= k < exps.len(),
        !annotated(anns, exps[k]),
        mask_outcome(source, fixture, anns, exps, pv) is Some,
    ensures
        occurs_in(
            (mask_outcome(source, fixture, anns, exps, pv)->0).0,
            source.subrange(exps[k].start as int, exps[k].end as int),
        ),
{
    lemma_mask_run_edits(fixture, anns, exps, pv, source.len() as int);
    let edits = (mask_run(fixture, anns, exps, pv)->0).0;
    let x = exps[k];
    assert(exps[k].start <= exps[k].end && exps[k].end <= source.len());
    assert forall|t: int| 0 <= t < edits.len() implies #[trigger] edits[t].0 + edits[t].1
        <= x.start || x.end <= edits[t].0 by {
        assert(masks_some(anns, exps, edits[t]));
        let j = choose|j: int|
            0 <= j < exps.len() && annotated(anns, exps[j]) && #[trigger] edit_masks(
                edits[t],
                exps[j],
            );
        assert(j != k);
        if j < k {
            assert(exps[j].end <= exps[k].start);
        } else {
            assert(exps[k].end <= exps[j].start);
        }
    }
    if edits.len() > 0 {
        assert(0 <= edits[0].0);
    }
    lemma_spliced_keeps(source, edits, 0, x.start as int, x.end as int);
}

} // verus!
